//! The byte-level codecs that generated bindings rely on: `encode` writes a
//! message value's fields in wire order, each primitive in its fixed
//! little-endian width; `decode` reads them back, accepting payloads shorter
//! than the full wire length by giving missing trailing extension fields
//! their zero value, and failing with `TruncatedPayload` below the minimum
//! (base-fields-only) length.
//!
//! Field elements are raw little-endian integers (`u64`), so an enum-valued
//! field is its raw integer — an integer outside the known entries is a
//! valid, representable state — and a float field is its raw bit pattern.

use vstd::prelude::*;
use crate::types::{FieldModel, FieldValue, WireError, wf_fields};
use crate::layout::{
    spec_wire_order, base_order, size_cat, spec_min_wire_len, spec_full_wire_len, plan_layout,
    lemma_wire_order_props, lemma_size_cat_add, ext_idxs,
};

verus! {

/// Exclusive upper bound of a `w`-byte little-endian value.
pub open spec fn val_bound(w: nat) -> int
    decreases w,
{
    if w == 0 {
        1
    } else {
        256 * val_bound((w - 1) as nat)
    }
}

/// The `w` little-endian bytes of `v`.
pub open spec fn le_bytes(v: int, w: nat) -> Seq<u8>
    decreases w,
{
    if w == 0 {
        Seq::empty()
    } else {
        seq![(v % 256) as u8] + le_bytes(v / 256, (w - 1) as nat)
    }
}

/// The integer a little-endian byte string denotes.
pub open spec fn le_val(bs: Seq<u8>) -> int
    decreases bs.len(),
{
    if bs.len() == 0 {
        0
    } else {
        bs[0] + 256 * le_val(bs.drop_first())
    }
}

pub proof fn lemma_le_bytes_len(v: int, w: nat)
    ensures
        le_bytes(v, w).len() == w,
    decreases w,
{
    if w > 0 {
        lemma_le_bytes_len(v / 256, (w - 1) as nat);
    }
}

/// Writing then reading a bounded value gives it back.
pub proof fn lemma_le_roundtrip(v: int, w: nat)
    requires
        0 <= v < val_bound(w),
    ensures
        le_bytes(v, w).len() == w,
        le_val(le_bytes(v, w)) == v,
    decreases w,
{
    lemma_le_bytes_len(v, w);
    if w > 0 {
        assert(0 <= v / 256 && v / 256 < val_bound((w - 1) as nat) && v == 256 * (v / 256) + v
            % 256) by (nonlinear_arith)
            requires
                0 <= v < 256 * val_bound((w - 1) as nat),
        ;
        lemma_le_roundtrip(v / 256, (w - 1) as nat);
        assert(le_bytes(v, w).drop_first() =~= le_bytes(v / 256, (w - 1) as nat));
    }
}

/// The wire bytes of a field's elements, in order, each `w` bytes.
pub open spec fn elems_bytes(elems: Seq<u64>, w: nat) -> Seq<u8>
    decreases elems.len(),
{
    if elems.len() == 0 {
        Seq::empty()
    } else {
        elems_bytes(elems.drop_last(), w) + le_bytes(elems.last() as int, w)
    }
}

pub proof fn lemma_elems_bytes_len(elems: Seq<u64>, w: nat)
    ensures
        elems_bytes(elems, w).len() == elems.len() * w,
    decreases elems.len(),
{
    if elems.len() > 0 {
        lemma_elems_bytes_len(elems.drop_last(), w);
        lemma_le_bytes_len(elems.last() as int, w);
        assert((elems.len() - 1) * w + w == elems.len() * w) by (nonlinear_arith);
    }
}

/// The wire bytes of one field's value.
pub open spec fn field_bytes(f: FieldModel, elems: Seq<u64>) -> Seq<u8> {
    elems_bytes(elems, f.kind.prim().width())
}

/// The concatenated wire bytes of the fields selected by `idxs`, in order.
pub open spec fn cat_fields(fields: Seq<FieldModel>, vals: Seq<Seq<u64>>, idxs: Seq<usize>) -> Seq<
    u8,
>
    decreases idxs.len(),
{
    if idxs.len() == 0 {
        Seq::empty()
    } else {
        cat_fields(fields, vals, idxs.drop_last()) + field_bytes(
            fields[idxs.last() as int],
            vals[idxs.last() as int],
        )
    }
}

/// A field value fits a kind: right element count, each element below the
/// width's bound.
pub open spec fn elems_fit(elems: Seq<u64>, k: crate::types::FieldKind) -> bool {
    &&& elems.len() == k.count()
    &&& forall|j: int| 0 <= j < elems.len() ==> (#[trigger] elems[j]) < val_bound(k.prim().width())
}

/// A value assignment fits a message's fields.
pub open spec fn vals_fit(fields: Seq<FieldModel>, vals: Seq<Seq<u64>>) -> bool {
    &&& vals.len() == fields.len()
    &&& forall|i: int| 0 <= i < fields.len() ==> elems_fit(#[trigger] vals[i], fields[i].kind)
}

/// The mathematical content of a runtime value vector.
pub open spec fn vv(vals: Seq<FieldValue>) -> Seq<Seq<u64>> {
    vals.map_values(|fv: FieldValue| fv.elems@)
}

/// The encoded payload of a message value: the fields' bytes concatenated in
/// wire order.
pub open spec fn spec_encode(fields: Seq<FieldModel>, vals: Seq<Seq<u64>>) -> Seq<u8> {
    cat_fields(fields, vals, spec_wire_order(fields))
}

/// Byte offset of wire position `k`.
pub open spec fn wire_off(fields: Seq<FieldModel>, k: int) -> nat {
    size_cat(fields, spec_wire_order(fields).take(k))
}

/// The byte at `p`, or 0 beyond the payload's end.
pub open spec fn byte_at(bytes: Seq<u8>, p: int) -> u8 {
    if 0 <= p < bytes.len() {
        bytes[p]
    } else {
        0
    }
}

/// The integer denoted by the `w` bytes at `off`, little-endian.
pub open spec fn le_val_at(bytes: Seq<u8>, off: int, w: nat) -> int
    decreases w,
{
    if w == 0 {
        0
    } else {
        byte_at(bytes, off) + 256 * le_val_at(bytes, off + 1, (w - 1) as nat)
    }
}

/// A `w`-byte window denotes a value below the width's bound.
pub proof fn lemma_le_val_at_bound(bytes: Seq<u8>, off: int, w: nat)
    ensures
        0 <= le_val_at(bytes, off, w) < val_bound(w),
    decreases w,
{
    if w > 0 {
        lemma_le_val_at_bound(bytes, off + 1, (w - 1) as nat);
    }
}

/// Within the payload, the window value is the value of the byte substring.
pub proof fn lemma_le_val_at_eq(bytes: Seq<u8>, off: int, w: nat)
    requires
        0 <= off,
        off + w <= bytes.len(),
    ensures
        le_val_at(bytes, off, w) == le_val(bytes.subrange(off, off + w)),
    decreases w,
{
    if w > 0 {
        lemma_le_val_at_eq(bytes, off + 1, (w - 1) as nat);
        assert(bytes.subrange(off, off + w).drop_first() =~= bytes.subrange(off + 1, off + w));
        assert(bytes.subrange(off, off + w)[0] == byte_at(bytes, off));
    }
}

/// `n` zero elements: the fallback for a missing trailing extension field.
pub open spec fn zero_elems(n: nat) -> Seq<u64> {
    Seq::new(n, |i: int| 0u64)
}

/// The `n` elements read little-endian from `bytes` starting at `off`.
pub open spec fn read_elems(bytes: Seq<u8>, off: int, w: nat, n: nat) -> Seq<u64>
    decreases n,
{
    if n == 0 {
        Seq::empty()
    } else {
        read_elems(bytes, off, w, (n - 1) as nat).push(
            le_val_at(bytes, off + (n - 1) * w, w) as u64,
        )
    }
}

/// The value decoded for a field at offset `off`: its elements if the field
/// lies fully within the payload, else all zero.
pub open spec fn read_field(bytes: Seq<u8>, off: int, f: FieldModel) -> Seq<u64> {
    if off + f.kind.size() <= bytes.len() {
        read_elems(bytes, off, f.kind.prim().width(), f.kind.count())
    } else {
        zero_elems(f.kind.count())
    }
}

/// The position of declaration index `i` in the wire order.
pub open spec fn wire_pos(fields: Seq<FieldModel>, i: int) -> int {
    spec_wire_order(fields).index_of(i as usize)
}

/// What `decode` yields for a payload, field by field in declaration order.
pub open spec fn spec_decoded(fields: Seq<FieldModel>, bytes: Seq<u8>) -> Seq<Seq<u64>> {
    Seq::new(fields.len(), |i: int| read_field(bytes, wire_off(fields, wire_pos(fields, i)) as int, fields[i]))
}

pub proof fn lemma_read_elems_len_fit(bytes: Seq<u8>, off: int, w: nat, n: nat)
    ensures
        read_elems(bytes, off, w, n).len() == n,
        forall|j: int|
            0 <= j < n ==> (#[trigger] read_elems(bytes, off, w, n)[j]) < val_bound(w),
    decreases n,
{
    if n > 0 {
        lemma_read_elems_len_fit(bytes, off, w, (n - 1) as nat);
        lemma_le_val_at_bound(bytes, off + (n - 1) * w, w);
    }
}

/// Selected fields' bytes accumulate over concatenation of selections.
pub proof fn lemma_cat_fields_add(
    fields: Seq<FieldModel>,
    vals: Seq<Seq<u64>>,
    a: Seq<usize>,
    b: Seq<usize>,
)
    ensures
        cat_fields(fields, vals, a + b) == cat_fields(fields, vals, a) + cat_fields(
            fields,
            vals,
            b,
        ),
    decreases b.len(),
{
    if b.len() == 0 {
        assert(a + b =~= a);
        assert(cat_fields(fields, vals, a) + cat_fields(fields, vals, b) =~= cat_fields(
            fields,
            vals,
            a,
        ));
    } else {
        assert((a + b).drop_last() =~= a + b.drop_last());
        lemma_cat_fields_add(fields, vals, a, b.drop_last());
        assert(cat_fields(fields, vals, a) + cat_fields(fields, vals, b) =~= (cat_fields(
            fields,
            vals,
            a,
        ) + cat_fields(fields, vals, b.drop_last())) + field_bytes(
            fields[b.last() as int],
            vals[b.last() as int],
        ));
    }
}

/// The selected fields' bytes have the selected fields' total size.
pub proof fn lemma_cat_fields_len(fields: Seq<FieldModel>, vals: Seq<Seq<u64>>, idxs: Seq<usize>)
    requires
        forall|k: int| 0 <= k < idxs.len() ==> (#[trigger] idxs[k]) < fields.len(),
        vals_fit(fields, vals),
    ensures
        cat_fields(fields, vals, idxs).len() == size_cat(fields, idxs),
    decreases idxs.len(),
{
    if idxs.len() > 0 {
        lemma_cat_fields_len(fields, vals, idxs.drop_last());
        let i = idxs.last() as int;
        lemma_elems_bytes_len(vals[i], fields[i].kind.prim().width());
        assert(elems_fit(vals[i], fields[i].kind));
        assert(fields[i].kind.count() * fields[i].kind.prim().width() == fields[i].kind.size());
    }
}

proof fn lemma_take_step<A>(s: Seq<A>, k: int)
    requires
        0 <= k < s.len(),
    ensures
        s.take(k + 1) == s.take(k).push(s[k]),
{
    assert(s.take(k + 1) =~= s.take(k).push(s[k]));
}

proof fn lemma_cat_fields_push(
    fields: Seq<FieldModel>,
    vals: Seq<Seq<u64>>,
    idxs: Seq<usize>,
    x: usize,
)
    ensures
        cat_fields(fields, vals, idxs.push(x)) == cat_fields(fields, vals, idxs) + field_bytes(
            fields[x as int],
            vals[x as int],
        ),
{
    assert(idxs.push(x).drop_last() =~= idxs);
    assert(idxs.push(x).last() == x);
}

proof fn lemma_size_cat_push2(fields: Seq<FieldModel>, idxs: Seq<usize>, x: usize)
    ensures
        size_cat(fields, idxs.push(x)) == size_cat(fields, idxs) + fields[x as int].kind.size(),
{
    assert(idxs.push(x).drop_last() =~= idxs);
    assert(idxs.push(x).last() == x);
}

/// Offsets are monotone: a longer prefix of the wire order spans more bytes.
pub proof fn lemma_size_cat_take_le(fields: Seq<FieldModel>, idxs: Seq<usize>, k: int)
    requires
        0 <= k <= idxs.len(),
    ensures
        size_cat(fields, idxs.take(k)) <= size_cat(fields, idxs),
    decreases idxs.len() - k,
{
    if k == idxs.len() {
        assert(idxs.take(k) =~= idxs);
    } else {
        lemma_take_step(idxs, k);
        lemma_size_cat_push2(fields, idxs.take(k), idxs[k]);
        lemma_size_cat_take_le(fields, idxs, k + 1);
    }
}

/// Serializes a message value: fields in wire order, each primitive in its
/// fixed little-endian width, array elements in order. The payload has the
/// full wire length.
pub fn encode(fields: &Vec<FieldModel>, vals: &Vec<FieldValue>) -> (out: Vec<u8>)
    requires
        wf_fields(fields@),
        vals_fit(fields@, vv(vals@)),
    ensures
        out@ == spec_encode(fields@, vv(vals@)),
        out@.len() == spec_full_wire_len(fields@),
{
    proof {
        lemma_wire_order_props(fields@);
    }
    let r = plan_layout(fields);
    let order = r.0;
    let mut out: Vec<u8> = Vec::new();
    let mut k: usize = 0;
    while k < order.len()
        invariant
            wf_fields(fields@),
            vals_fit(fields@, vv(vals@)),
            vals@.len() == fields@.len(),
            order@ == spec_wire_order(fields@),
            forall|k2: int| 0 <= k2 < order@.len() ==> (#[trigger] order@[k2]) < fields@.len(),
            k <= order@.len(),
            out@ == cat_fields(fields@, vv(vals@), order@.take(k as int)),
        decreases order@.len() - k,
    {
        let i = order[k];
        let f = &fields[i];
        let w = f.kind.prim_of().byte_width();
        let elems = &vals[i].elems;
        let ghost pre_out = out@;
        let mut j: usize = 0;
        while j < elems.len()
            invariant
                j <= elems@.len(),
                w == fields@[i as int].kind.prim().width(),
                w <= 8,
                out@ == pre_out + elems_bytes(elems@.take(j as int), w as nat),
            decreases elems@.len() - j,
        {
            let e = elems[j];
            let ghost base2 = out@;
            let ghost mut taken: Seq<u8> = Seq::empty();
            let mut x: u64 = e;
            let mut t: usize = 0;
            while t < w
                invariant
                    t <= w,
                    w <= 8,
                    out@ == base2 + taken,
                    taken.len() == t,
                    le_bytes(e as int, w as nat) == taken + le_bytes(x as int, (w - t) as nat),
                decreases w - t,
            {
                let b: u8 = (x % 256) as u8;
                proof {
                    let rest = le_bytes(x as int, (w - t) as nat);
                    assert(rest == seq![(x as int % 256) as u8] + le_bytes(
                        x as int / 256,
                        (w - t - 1) as nat,
                    ));
                    assert(rest[0] == b);
                    assert(taken + rest =~= taken.push(b) + le_bytes(
                        x as int / 256,
                        (w - t - 1) as nat,
                    ));
                    taken = taken.push(b);
                }
                out.push(b);
                x = x / 256;
                t = t + 1;
            }
            proof {
                assert(le_bytes(x as int, 0) =~= Seq::<u8>::empty());
                assert(le_bytes(e as int, w as nat) =~= taken);
                assert(out@ == base2 + le_bytes(e as int, w as nat));
                assert(elems@.take(j as int + 1).drop_last() =~= elems@.take(j as int));
                assert(elems@.take(j as int + 1).last() == elems@[j as int]);
                assert(out@ =~= pre_out + elems_bytes(elems@.take(j as int + 1), w as nat));
            }
            j = j + 1;
        }
        proof {
            assert(elems@.take(elems@.len() as int) =~= elems@);
            assert(vv(vals@)[i as int] == elems@);
            assert(out@ == pre_out + field_bytes(fields@[i as int], vv(vals@)[i as int]));
            lemma_take_step(order@, k as int);
            lemma_cat_fields_push(fields@, vv(vals@), order@.take(k as int), order@[k as int]);
            assert(out@ == cat_fields(fields@, vv(vals@), order@.take(k as int + 1)));
        }
        k = k + 1;
    }
    proof {
        assert(order@.take(order@.len() as int) =~= order@);
        lemma_cat_fields_len(fields@, vv(vals@), order@);
    }
    out
}

/// Parses a message value back out of a payload. Fails with
/// `TruncatedPayload` exactly when the payload is shorter than the minimum
/// (base-fields-only) wire length; otherwise every field's value is read at
/// its wire offset, extension fields that the payload no longer covers
/// getting their zero value.
pub fn decode(fields: &Vec<FieldModel>, bytes: &Vec<u8>) -> (r: Result<Vec<FieldValue>, WireError>)
    requires
        wf_fields(fields@),
    ensures
        match r {
            Ok(vals) => bytes@.len() >= spec_min_wire_len(fields@) && vv(vals@) == spec_decoded(
                fields@,
                bytes@,
            ) && vals_fit(fields@, vv(vals@)),
            Err(e) => e == WireError::TruncatedPayload && bytes@.len() < spec_min_wire_len(
                fields@,
            ),
        },
{
    proof {
        lemma_wire_order_props(fields@);
    }
    let r = plan_layout(fields);
    let order = r.0;
    let min_len = r.1;
    if bytes.len() < min_len {
        return Err(WireError::TruncatedPayload);
    }
    let ghost full: usize = r.2;
    let mut vals: Vec<FieldValue> = Vec::new();
    let mut i: usize = 0;
    while i < fields.len()
        invariant
            i <= fields@.len(),
            vals@.len() == i,
        decreases fields@.len() - i,
    {
        vals.push(FieldValue { elems: Vec::new() });
        i = i + 1;
    }
    let mut off: usize = 0;
    let mut k: usize = 0;
    while k < order.len()
        invariant
            wf_fields(fields@),
            bytes@.len() >= spec_min_wire_len(fields@),
            order@ == spec_wire_order(fields@),
            order@.no_duplicates(),
            forall|k2: int| 0 <= k2 < order@.len() ==> (#[trigger] order@[k2]) < fields@.len(),
            vals@.len() == fields@.len(),
            k <= order@.len(),
            off == size_cat(fields@, order@.take(k as int)),
            full == spec_full_wire_len(fields@),
            forall|k2: int|
                0 <= k2 < k ==> #[trigger] vv(vals@)[order@[k2] as int] == read_field(
                    bytes@,
                    wire_off(fields@, k2) as int,
                    fields@[order@[k2] as int],
                ),
        decreases order@.len() - k,
    {
        let idx = order[k];
        let f = &fields[idx];
        let w = f.kind.prim_of().byte_width();
        let n = f.kind.elem_count();
        let size = f.kind.byte_size();
        proof {
            lemma_take_step(order@, k as int);
            lemma_size_cat_push2(fields@, order@.take(k as int), order@[k as int]);
            lemma_size_cat_take_le(fields@, order@, k as int + 1);
            assert(off + size == size_cat(fields@, order@.take(k as int + 1)));
            assert(off + size <= full);
        }
        let present = off + size <= bytes.len();
        let mut elems: Vec<u64> = Vec::new();
        if present {
            let mut j: usize = 0;
            while j < n
                invariant
                    j <= n,
                    n == fields@[idx as int].kind.count(),
                    w == fields@[idx as int].kind.prim().width(),
                    w <= 8,
                    size == fields@[idx as int].kind.size(),
                    size == n * w,
                    off + size <= bytes@.len(),
                    bytes@.len() <= usize::MAX,
                    elems@ == read_elems(bytes@, off as int, w as nat, j as nat),
                decreases n - j,
            {
                proof {
                    assert(j * w + w <= n * w) by (nonlinear_arith)
                        requires
                            j + 1 <= n,
                            0 <= w,
                    ;
                    assert(0 <= j * w) by (nonlinear_arith)
                        requires
                            0 <= j,
                            0 <= w,
                    ;
                }
                let start = off + j * w;
                let mut x: u64 = 0;
                let mut t: usize = w;
                proof {
                    assert(le_val_at(bytes@, start as int + t as int, 0) == 0);
                    assert(val_bound(0) == 1);
                }
                while t > 0
                    invariant
                        t <= w,
                        w <= 8,
                        start + w <= bytes@.len(),
                        bytes@.len() <= usize::MAX,
                        x == le_val_at(bytes@, start as int + t as int, (w - t) as nat),
                        (x as int) < val_bound((w - t) as nat),
                    decreases t,
                {
                    let b = bytes[start + t - 1];
                    proof {
                        let lo = start as int + t as int - 1;
                        assert(byte_at(bytes@, lo) == bytes@[lo]);
                        assert(le_val_at(bytes@, lo, (w - t + 1) as nat) == byte_at(bytes@, lo)
                            + 256 * le_val_at(bytes@, lo + 1, (w - t) as nat));
                        assert(val_bound((w - t + 1) as nat) == 256 * val_bound((w - t) as nat));
                        assert(b as int + 256 * (x as int) < 256 * val_bound((w - t) as nat))
                            by (nonlinear_arith)
                            requires
                                (b as int) < 256,
                                (x as int) >= 0,
                                (x as int) < val_bound((w - t) as nat),
                        ;
                        assert(val_bound(8) == 0x1_0000_0000_0000_0000) by {
                            assert(val_bound(0) == 1);
                            assert(val_bound(1) == 256);
                            assert(val_bound(2) == 0x1_0000);
                            assert(val_bound(3) == 0x100_0000);
                            assert(val_bound(4) == 0x1_0000_0000);
                            assert(val_bound(5) == 0x100_0000_0000);
                            assert(val_bound(6) == 0x1_0000_0000_0000);
                            assert(val_bound(7) == 0x100_0000_0000_0000);
                            assert(val_bound(8) == 0x1_0000_0000_0000_0000);
                        }
                        assert(val_bound((w - t + 1) as nat) <= val_bound(8)) by {
                            lemma_val_bound_mono((w - t + 1) as nat, 8);
                        }
                    }
                    x = (b as u64) + 256 * x;
                    t = t - 1;
                }
                proof {
                    assert(x == le_val_at(bytes@, start as int, w as nat));
                    assert(read_elems(bytes@, off as int, w as nat, j as nat + 1) == read_elems(
                        bytes@,
                        off as int,
                        w as nat,
                        j as nat,
                    ).push(le_val_at(bytes@, off + j * w, w as nat) as u64));
                }
                elems.push(x);
                j = j + 1;
            }
        } else {
            let mut j: usize = 0;
            while j < n
                invariant
                    j <= n,
                    elems@.len() == j,
                    forall|q: int| 0 <= q < elems@.len() ==> (#[trigger] elems@[q]) == 0u64,
                decreases n - j,
            {
                elems.push(0);
                j = j + 1;
            }
            proof {
                assert(elems@ =~= zero_elems(n as nat));
            }
        }
        let ghost old_vals = vals@;
        let fv = FieldValue { elems };
        vstd::std_specs::core::index_set(&mut vals, idx, fv);
        proof {
            assert(vals@ == old_vals.update(idx as int, fv));
            assert(vv(vals@)[idx as int] == fv.elems@);
            if off + size <= bytes@.len() {
                assert(fv.elems@ == read_elems(
                    bytes@,
                    off as int,
                    fields@[idx as int].kind.prim().width(),
                    fields@[idx as int].kind.count(),
                ));
            }
            assert(wire_off(fields@, k as int) == off);
            assert(vv(vals@)[order@[k as int] as int] == read_field(
                bytes@,
                wire_off(fields@, k as int) as int,
                fields@[order@[k as int] as int],
            ));
            assert forall|k2: int| 0 <= k2 < k implies #[trigger] vv(vals@)[order@[k2] as int]
                == read_field(
                bytes@,
                wire_off(fields@, k2) as int,
                fields@[order@[k2] as int],
            ) by {
                assert(order@[k2] != order@[k as int]);
                assert(vv(vals@)[order@[k2] as int] == vv(old_vals)[order@[k2] as int]);
            }
        }
        off = off + size;
        k = k + 1;
    }
    proof {
        assert forall|i2: int| 0 <= i2 < fields@.len() implies #[trigger] vv(vals@)[i2]
            == spec_decoded(fields@, bytes@)[i2] by {
            assert(spec_wire_order(fields@).contains(i2 as usize));
            let k0 = wire_pos(fields@, i2);
            assert(0 <= k0 < spec_wire_order(fields@).len() && spec_wire_order(fields@)[k0]
                == i2 as usize);
            assert(vv(vals@)[i2] == read_field(
                bytes@,
                wire_off(fields@, k0) as int,
                fields@[i2],
            ));
        }
        assert(vv(vals@) =~= spec_decoded(fields@, bytes@));
        assert forall|i2: int| 0 <= i2 < fields@.len() implies elems_fit(
            #[trigger] vv(vals@)[i2],
            fields@[i2].kind,
        ) by {
            let f = fields@[i2];
            let o = wire_off(fields@, wire_pos(fields@, i2)) as int;
            if o + f.kind.size() <= bytes@.len() {
                lemma_read_elems_len_fit(bytes@, o, f.kind.prim().width(), f.kind.count());
            } else {
                assert(val_bound(f.kind.prim().width()) >= 1) by {
                    lemma_val_bound_mono(0, f.kind.prim().width());
                }
            }
        }
    }
    Ok(vals)
}

pub proof fn lemma_val_bound_mono(a: nat, b: nat)
    requires
        a <= b,
    ensures
        val_bound(a) <= val_bound(b),
        1 <= val_bound(a),
    decreases b,
{
    if b > 0 {
        if a == b {
            lemma_val_bound_mono((a - 1) as nat, (b - 1) as nat);
        } else {
            lemma_val_bound_mono(a, (b - 1) as nat);
        }
    }
}


/// Reading back a window that holds a value's wire bytes gives the value.
proof fn lemma_read_elems_of_elems_bytes(bytes: Seq<u8>, off: int, elems: Seq<u64>, w: nat)
    requires
        0 <= off,
        off + elems.len() * w <= bytes.len(),
        bytes.subrange(off, off + elems.len() * w) == elems_bytes(elems, w),
        forall|j: int| 0 <= j < elems.len() ==> (#[trigger] elems[j]) < val_bound(w),
    ensures
        read_elems(bytes, off, w, elems.len()) == elems,
    decreases elems.len(),
{
    if elems.len() > 0 {
        let n = elems.len();
        let pre = elems.drop_last();
        lemma_elems_bytes_len(pre, w);
        lemma_le_bytes_len(elems.last() as int, w);
        assert((n - 1) * w + w == n * w) by (nonlinear_arith)
            requires
                n >= 1,
        ;
        assert(0 <= (n - 1) * w <= n * w) by (nonlinear_arith)
            requires
                n >= 1,
        ;
        let win = bytes.subrange(off, off + n * w);
        assert(win == elems_bytes(pre, w) + le_bytes(elems.last() as int, w));
        assert(bytes.subrange(off, off + (n - 1) * w) =~= elems_bytes(pre, w)) by {
            assert forall|q: int| 0 <= q < (n - 1) * w implies bytes.subrange(
                off,
                off + (n - 1) * w,
            )[q] == elems_bytes(pre, w)[q] by {
                assert(win[q] == elems_bytes(pre, w)[q]);
                assert(bytes.subrange(off, off + (n - 1) * w)[q] == bytes[off + q]);
                assert(win[q] == bytes[off + q]);
            }
        }
        lemma_read_elems_of_elems_bytes(bytes, off, pre, w);
        assert(bytes.subrange(off + (n - 1) * w, off + n * w) =~= le_bytes(
            elems.last() as int,
            w,
        )) by {
            assert forall|q: int| 0 <= q < w implies bytes.subrange(
                off + (n - 1) * w,
                off + n * w,
            )[q] == le_bytes(elems.last() as int, w)[q] by {
                assert(win[(n - 1) * w + q] == le_bytes(elems.last() as int, w)[q]);
                assert(bytes.subrange(off + (n - 1) * w, off + n * w)[q] == bytes[off + (n - 1) * w
                    + q]);
                assert(win[(n - 1) * w + q] == bytes[off + (n - 1) * w + q]);
            }
        }
        lemma_le_val_at_eq(bytes, off + (n - 1) * w, w);
        lemma_le_roundtrip(elems.last() as int, w);
        assert(le_val_at(bytes, off + (n - 1) * w, w) == elems.last() as int);
        assert(read_elems(bytes, off, w, n) =~= elems);
    } else {
        assert(read_elems(bytes, off, w, 0) =~= elems);
    }
}

/// What decoding a truncated encoding yields at one wire position: the
/// original value where the field still lies within the cut, its zero value
/// where it does not.
proof fn lemma_read_back_at(fields: Seq<FieldModel>, vals: Seq<Seq<u64>>, t: int, k: int)
    requires
        wf_fields(fields),
        vals_fit(fields, vals),
        0 <= k < spec_wire_order(fields).len(),
        0 <= t <= spec_full_wire_len(fields),
    ensures
        ({
            let i = spec_wire_order(fields)[k] as int;
            read_field(spec_encode(fields, vals).take(t), wire_off(fields, k) as int, fields[i])
                == if wire_off(fields, k) + fields[i].kind.size() <= t {
                vals[i]
            } else {
                zero_elems(fields[i].kind.count())
            }
        }),
{
    lemma_wire_order_props(fields);
    let order = spec_wire_order(fields);
    let i = order[k] as int;
    let f = fields[i];
    lemma_cat_fields_len(fields, vals, order);
    let full = spec_encode(fields, vals);
    assert(full.len() == spec_full_wire_len(fields));
    let bytes = full.take(t);
    assert(bytes.len() == t);
    let off = wire_off(fields, k) as int;
    lemma_take_step(order, k);
    lemma_size_cat_push2(fields, order.take(k), order[k]);
    assert(size_cat(fields, order.take(k + 1)) == wire_off(fields, k) + f.kind.size());
    lemma_size_cat_take_le(fields, order, k + 1);
    assert(off + f.kind.size() <= full.len());
    if off + f.kind.size() <= t {
        // the field's window of the truncated payload holds its wire bytes
        assert(order =~= order.take(k + 1) + order.skip(k + 1));
        lemma_cat_fields_add(fields, vals, order.take(k + 1), order.skip(k + 1));
        assert(cat_fields(fields, vals, order) == cat_fields(fields, vals, order.take(k + 1))
            + cat_fields(fields, vals, order.skip(k + 1)));
        lemma_cat_fields_push(fields, vals, order.take(k), order[k]);
        assert(cat_fields(fields, vals, order.take(k + 1)) == cat_fields(
            fields,
            vals,
            order.take(k),
        ) + field_bytes(f, vals[i]));
        assert(forall|k2: int|
            0 <= k2 < order.take(k).len() ==> (#[trigger] order.take(k)[k2]) < fields.len());
        lemma_cat_fields_len(fields, vals, order.take(k));
        assert(cat_fields(fields, vals, order.take(k)).len() == off);
        let chunk = field_bytes(f, vals[i]);
        lemma_elems_bytes_len(vals[i], f.kind.prim().width());
        assert(elems_fit(vals[i], f.kind));
        assert(chunk.len() == f.kind.count() * f.kind.prim().width());
        assert(chunk.len() == f.kind.size());
        assert forall|q: int| 0 <= q < f.kind.size() implies bytes.subrange(
            off,
            off + f.kind.size(),
        )[q] == chunk[q] by {
            assert((cat_fields(fields, vals, order.take(k)) + chunk)[off + q] == chunk[q]);
            assert(full[off + q] == (cat_fields(fields, vals, order.take(k + 1)) + cat_fields(
                fields,
                vals,
                order.skip(k + 1),
            ))[off + q]);
            assert(full[off + q] == chunk[q]);
            assert(bytes[off + q] == full[off + q]);
        }
        assert(bytes.subrange(off, off + f.kind.size()) =~= chunk);
        assert(f.kind.size() == f.kind.count() * f.kind.prim().width());
        lemma_read_elems_of_elems_bytes(bytes, off, vals[i], f.kind.prim().width());
        assert(vals[i].len() == f.kind.count());
        assert(read_field(bytes, off, f) == vals[i]);
    } else {
        assert(read_field(bytes, off, f) == zero_elems(f.kind.count()));
    }
}

/// Law (round trip): for every well-formed message and every value
/// assignment within the declared type ranges and array lengths, decoding
/// the encoded payload yields the value back, field for field.
pub proof fn lemma_round_trip(fields: Seq<FieldModel>, vals: Seq<Seq<u64>>)
    requires
        wf_fields(fields),
        vals_fit(fields, vals),
    ensures
        spec_encode(fields, vals).len() == spec_full_wire_len(fields),
        spec_min_wire_len(fields) <= spec_full_wire_len(fields),
        spec_decoded(fields, spec_encode(fields, vals)) == vals,
{
    lemma_wire_order_props(fields);
    lemma_cat_fields_len(fields, vals, spec_wire_order(fields));
    lemma_size_cat_add(fields, base_order(fields), ext_idxs(fields));
    let order = spec_wire_order(fields);
    let full = spec_encode(fields, vals);
    assert(full.take(full.len() as int) =~= full);
    assert forall|i: int| 0 <= i < fields.len() implies spec_decoded(fields, full)[i]
        == vals[i] by {
        assert(order.contains(i as usize));
        let k0 = wire_pos(fields, i);
        assert(0 <= k0 < order.len() && order[k0] == i as usize);
        lemma_read_back_at(fields, vals, full.len() as int, k0);
        lemma_take_step(order, k0);
        lemma_size_cat_push2(fields, order.take(k0), order[k0]);
        lemma_size_cat_take_le(fields, order, k0 + 1);
        assert(wire_off(fields, k0) + fields[i].kind.size() <= full.len());
    }
    assert(spec_decoded(fields, full) =~= vals);
}

/// Law (truncation compatibility): cutting an encoded payload at any point
/// at or above the minimum wire length decodes to the original value with
/// every extension field the cut no longer covers reset to zero; base fields
/// are always preserved, and a cut at exactly the minimum zeroes every
/// extension field.
pub proof fn lemma_truncation(fields: Seq<FieldModel>, vals: Seq<Seq<u64>>, t: int)
    requires
        wf_fields(fields),
        vals_fit(fields, vals),
        spec_min_wire_len(fields) <= t <= spec_full_wire_len(fields),
    ensures
        forall|i: int|
            0 <= i < fields.len() ==> spec_decoded(fields, spec_encode(fields, vals).take(t))[i]
                == (if wire_off(fields, wire_pos(fields, i)) + fields[i].kind.size() <= t {
                vals[i]
            } else {
                zero_elems(fields[i].kind.count())
            }),
        forall|i: int|
            0 <= i < fields.len() && !(#[trigger] fields[i]).is_extension ==> spec_decoded(
                fields,
                spec_encode(fields, vals).take(t),
            )[i] == vals[i],
        forall|i: int|
            0 <= i < fields.len() && (#[trigger] fields[i]).is_extension && t
                == spec_min_wire_len(fields) ==> spec_decoded(
                fields,
                spec_encode(fields, vals).take(t),
            )[i] == zero_elems(fields[i].kind.count()),
{
    lemma_wire_order_props(fields);
    lemma_cat_fields_len(fields, vals, spec_wire_order(fields));
    let order = spec_wire_order(fields);
    let bo = base_order(fields);
    let bytes = spec_encode(fields, vals).take(t);
    assert(order.take(bo.len() as int) =~= bo);
    assert forall|i: int| 0 <= i < fields.len() implies spec_decoded(fields, bytes)[i] == (
    if wire_off(fields, wire_pos(fields, i)) + fields[i].kind.size() <= t {
        vals[i]
    } else {
        zero_elems(fields[i].kind.count())
    }) by {
        assert(order.contains(i as usize));
        let k0 = wire_pos(fields, i);
        assert(0 <= k0 < order.len() && order[k0] == i as usize);
        lemma_read_back_at(fields, vals, t, k0);
    }
    assert forall|i: int|
        0 <= i < fields.len() && !(#[trigger] fields[i]).is_extension implies spec_decoded(
        fields,
        bytes,
    )[i] == vals[i] by {
        assert(order.contains(i as usize));
        let k0 = wire_pos(fields, i);
        assert(0 <= k0 < order.len() && order[k0] == i as usize);
        assert(k0 < bo.len());
        lemma_take_step(order, k0);
        lemma_size_cat_push2(fields, order.take(k0), order[k0]);
        lemma_size_cat_take_le(fields, bo, k0 + 1);
        assert(bo.take(k0 + 1) =~= order.take(k0 + 1));
        assert(size_cat(fields, order.take(k0 + 1)) <= spec_min_wire_len(fields));
        assert(wire_off(fields, k0) + fields[i].kind.size() <= t);
    }
    assert forall|i: int|
        0 <= i < fields.len() && (#[trigger] fields[i]).is_extension && t == spec_min_wire_len(
            fields,
        ) implies spec_decoded(fields, bytes)[i] == zero_elems(fields[i].kind.count()) by {
        assert(order.contains(i as usize));
        let k0 = wire_pos(fields, i);
        assert(0 <= k0 < order.len() && order[k0] == i as usize);
        assert(k0 >= bo.len());
        lemma_size_cat_take_le(fields, order.take(k0), bo.len() as int);
        assert(order.take(k0).take(bo.len() as int) =~= bo);
        assert(size_cat(fields, order.take(k0)) >= spec_min_wire_len(fields)) by {
            lemma_size_cat_split_ge(fields, order.take(k0), bo.len() as int);
        }
        assert(fields[i].kind.size() >= 1) by {
            assert(fields[i].kind.count() >= 1 && fields[i].kind.prim().width() >= 1);
            assert(fields[i].kind.count() * fields[i].kind.prim().width() >= 1)
                by (nonlinear_arith)
                requires
                    fields[i].kind.count() >= 1,
                    fields[i].kind.prim().width() >= 1,
            ;
        }
        assert(wire_off(fields, k0) + fields[i].kind.size() > t);
    }
}

/// A prefix of a selection spans at most the whole selection's bytes, and
/// the whole spans at least any prefix.
proof fn lemma_size_cat_split_ge(fields: Seq<FieldModel>, idxs: Seq<usize>, k: int)
    requires
        0 <= k <= idxs.len(),
    ensures
        size_cat(fields, idxs) >= size_cat(fields, idxs.take(k)),
{
    lemma_size_cat_take_le(fields, idxs, k);
}


} // verus!
