//! The wire layout planner: per-message field serialization order, wire
//! lengths, and the one-byte compatibility checksum (`crc_extra`).
//!
//! The wire order is the base fields sorted by strictly decreasing primitive
//! byte width, ties broken by ascending declaration index, followed by the
//! extension fields appended in declaration order. Widths are 1, 2, 4 or 8,
//! so the order is four width buckets and the extension tail.

use vstd::prelude::*;
use crate::types::{FieldModel, MessageModel, wf_fields};

verus! {

/// Declaration indices, ascending, of the base fields whose primitive width
/// is `w`.
pub open spec fn base_idxs_w(fields: Seq<FieldModel>, w: nat) -> Seq<usize>
    decreases fields.len(),
{
    if fields.len() == 0 {
        Seq::empty()
    } else {
        let pre = base_idxs_w(fields.drop_last(), w);
        let last = fields[fields.len() - 1];
        if !last.is_extension && last.kind.prim().width() == w {
            pre.push((fields.len() - 1) as usize)
        } else {
            pre
        }
    }
}

/// Declaration indices, ascending, of the extension fields.
pub open spec fn ext_idxs(fields: Seq<FieldModel>) -> Seq<usize>
    decreases fields.len(),
{
    if fields.len() == 0 {
        Seq::empty()
    } else {
        let pre = ext_idxs(fields.drop_last());
        let last = fields[fields.len() - 1];
        if last.is_extension {
            pre.push((fields.len() - 1) as usize)
        } else {
            pre
        }
    }
}

/// The base part of the wire order: width buckets 8, 4, 2, 1, each ascending
/// by declaration index.
pub open spec fn base_order(fields: Seq<FieldModel>) -> Seq<usize> {
    base_idxs_w(fields, 8) + base_idxs_w(fields, 4) + base_idxs_w(fields, 2) + base_idxs_w(
        fields,
        1,
    )
}

/// The full wire order: base fields by strictly decreasing width (ties by
/// ascending declaration index), then extension fields in declaration order.
pub open spec fn spec_wire_order(fields: Seq<FieldModel>) -> Seq<usize> {
    base_order(fields) + ext_idxs(fields)
}

/// Total wire size, in bytes, of the fields selected by `idxs`, in order.
pub open spec fn size_cat(fields: Seq<FieldModel>, idxs: Seq<usize>) -> nat
    decreases idxs.len(),
{
    if idxs.len() == 0 {
        0
    } else {
        size_cat(fields, idxs.drop_last()) + fields[idxs.last() as int].kind.size()
    }
}

/// The minimum wire length: all base fields present, no extension bytes.
pub open spec fn spec_min_wire_len(fields: Seq<FieldModel>) -> nat {
    size_cat(fields, base_order(fields))
}

/// The full wire length: every field present.
pub open spec fn spec_full_wire_len(fields: Seq<FieldModel>) -> nat {
    size_cat(fields, spec_wire_order(fields))
}

proof fn lemma_push_contains<A>(s: Seq<A>, x: A, y: A)
    requires
        s.contains(y) || x == y,
    ensures
        s.push(x).contains(y),
{
    if s.contains(y) {
        let k = choose|k: int| 0 <= k < s.len() && s[k] == y;
        assert(s.push(x)[k] == y);
    } else {
        assert(s.push(x)[s.len() as int] == y);
    }
}

proof fn lemma_add_contains<A>(a: Seq<A>, b: Seq<A>, y: A)
    requires
        a.contains(y) || b.contains(y),
    ensures
        (a + b).contains(y),
{
    if a.contains(y) {
        let k = choose|k: int| 0 <= k < a.len() && a[k] == y;
        assert((a + b)[k] == y);
    } else {
        let k = choose|k: int| 0 <= k < b.len() && b[k] == y;
        assert((a + b)[a.len() + k] == y);
    }
}

/// Every element of `base_idxs_w(fields, w)` is the declaration index of a
/// base field of width `w`; the indices are strictly ascending; every such
/// field's index occurs.
pub proof fn lemma_base_idxs_w_props(fields: Seq<FieldModel>, w: nat)
    requires
        fields.len() <= usize::MAX,
    ensures
        base_idxs_w(fields, w).len() <= fields.len(),
        forall|k: int|
            0 <= k < base_idxs_w(fields, w).len() ==> (#[trigger] base_idxs_w(fields, w)[k])
                < fields.len() && !fields[base_idxs_w(fields, w)[k] as int].is_extension
                && fields[base_idxs_w(fields, w)[k] as int].kind.prim().width() == w,
        forall|k1: int, k2: int|
            0 <= k1 < k2 < base_idxs_w(fields, w).len() ==> base_idxs_w(fields, w)[k1]
                < base_idxs_w(fields, w)[k2],
        forall|i: int|
            0 <= i < fields.len() && !(#[trigger] fields[i]).is_extension
                && fields[i].kind.prim().width() == w ==> base_idxs_w(fields, w).contains(
                i as usize,
            ),
    decreases fields.len(),
{
    if fields.len() > 0 {
        let pre = fields.drop_last();
        lemma_base_idxs_w_props(pre, w);
        let last = fields[fields.len() - 1];
        let s = base_idxs_w(fields, w);
        let sp = base_idxs_w(pre, w);
        if !last.is_extension && last.kind.prim().width() == w {
            assert(s == sp.push((fields.len() - 1) as usize));
        } else {
            assert(s == sp);
        }
        assert forall|k: int| 0 <= k < s.len() implies (#[trigger] s[k]) < fields.len()
            && !fields[s[k] as int].is_extension && fields[s[k] as int].kind.prim().width()
            == w by {
            if k < sp.len() {
                assert(s[k] == sp[k]);
                assert(sp[k] < pre.len());
                assert(!pre[sp[k] as int].is_extension);
                assert(pre[sp[k] as int].kind.prim().width() == w);
                assert(pre[sp[k] as int] == fields[sp[k] as int]);
            } else {
                assert(k < s.len());
                assert(s == sp.push((fields.len() - 1) as usize));
                assert(s[k] == (fields.len() - 1) as usize);
            }
        }
        assert forall|k1: int, k2: int| 0 <= k1 < k2 < s.len() implies s[k1] < s[k2] by {
            if k2 < sp.len() {
                assert(s[k1] == sp[k1] && s[k2] == sp[k2]);
            } else {
                assert(k2 < s.len());
                assert(s == sp.push((fields.len() - 1) as usize));
                assert(s[k1] == sp[k1] && sp[k1] < pre.len());
            }
        }
        assert forall|i: int|
            0 <= i < fields.len() && !(#[trigger] fields[i]).is_extension
                && fields[i].kind.prim().width() == w implies s.contains(i as usize) by {
            if i < fields.len() - 1 {
                assert(pre[i] == fields[i]);
                assert(sp.contains(i as usize));
                if !last.is_extension && last.kind.prim().width() == w {
                    lemma_push_contains(sp, (fields.len() - 1) as usize, i as usize);
                }
            } else {
                assert(s == sp.push((fields.len() - 1) as usize));
                assert(s[sp.len() as int] == (fields.len() - 1) as usize);
            }
        }
    }
}

/// The extension indices are exactly the extension fields' declaration
/// indices, strictly ascending.
pub proof fn lemma_ext_idxs_props(fields: Seq<FieldModel>)
    requires
        fields.len() <= usize::MAX,
    ensures
        ext_idxs(fields).len() <= fields.len(),
        forall|k: int|
            0 <= k < ext_idxs(fields).len() ==> (#[trigger] ext_idxs(fields)[k]) < fields.len()
                && fields[ext_idxs(fields)[k] as int].is_extension,
        forall|k1: int, k2: int|
            0 <= k1 < k2 < ext_idxs(fields).len() ==> ext_idxs(fields)[k1] < ext_idxs(fields)[k2],
        forall|i: int|
            0 <= i < fields.len() && (#[trigger] fields[i]).is_extension ==> ext_idxs(
                fields,
            ).contains(i as usize),
    decreases fields.len(),
{
    if fields.len() > 0 {
        let pre = fields.drop_last();
        lemma_ext_idxs_props(pre);
        let last = fields[fields.len() - 1];
        let s = ext_idxs(fields);
        let sp = ext_idxs(pre);
        if last.is_extension {
            assert(s == sp.push((fields.len() - 1) as usize));
        } else {
            assert(s == sp);
        }
        assert forall|k: int| 0 <= k < s.len() implies (#[trigger] s[k]) < fields.len()
            && fields[s[k] as int].is_extension by {
            if k < sp.len() {
                assert(s[k] == sp[k]);
                assert(sp[k] < pre.len());
                assert(pre[sp[k] as int] == fields[sp[k] as int]);
            } else {
                assert(s == sp.push((fields.len() - 1) as usize));
                assert(s[k] == (fields.len() - 1) as usize);
            }
        }
        assert forall|k1: int, k2: int| 0 <= k1 < k2 < s.len() implies s[k1] < s[k2] by {
            if k2 < sp.len() {
                assert(s[k1] == sp[k1] && s[k2] == sp[k2]);
            } else {
                assert(s == sp.push((fields.len() - 1) as usize));
                assert(s[k1] == sp[k1] && sp[k1] < pre.len());
            }
        }
        assert forall|i: int|
            0 <= i < fields.len() && (#[trigger] fields[i]).is_extension implies s.contains(
            i as usize,
        ) by {
            if i < fields.len() - 1 {
                assert(pre[i] == fields[i]);
                assert(sp.contains(i as usize));
                if last.is_extension {
                    lemma_push_contains(sp, (fields.len() - 1) as usize, i as usize);
                }
            } else {
                assert(s == sp.push((fields.len() - 1) as usize));
                assert(s[sp.len() as int] == (fields.len() - 1) as usize);
            }
        }
    }
}

proof fn lemma_base_idxs_w_take_step(fields: Seq<FieldModel>, w: nat, i: int)
    requires
        0 <= i < fields.len(),
        fields.len() <= usize::MAX,
    ensures
        base_idxs_w(fields.take(i + 1), w) == if !fields[i].is_extension
            && fields[i].kind.prim().width() == w {
            base_idxs_w(fields.take(i), w).push(i as usize)
        } else {
            base_idxs_w(fields.take(i), w)
        },
{
    assert(fields.take(i + 1).drop_last() =~= fields.take(i));
    assert(fields.take(i + 1)[i] == fields[i]);
}

proof fn lemma_ext_idxs_take_step(fields: Seq<FieldModel>, i: int)
    requires
        0 <= i < fields.len(),
        fields.len() <= usize::MAX,
    ensures
        ext_idxs(fields.take(i + 1)) == if fields[i].is_extension {
            ext_idxs(fields.take(i)).push(i as usize)
        } else {
            ext_idxs(fields.take(i))
        },
{
    assert(fields.take(i + 1).drop_last() =~= fields.take(i));
    assert(fields.take(i + 1)[i] == fields[i]);
}

/// Appending one selected field adds its size.
proof fn lemma_size_cat_push(fields: Seq<FieldModel>, idxs: Seq<usize>, x: usize)
    requires
        x < fields.len(),
    ensures
        size_cat(fields, idxs.push(x)) == size_cat(fields, idxs) + fields[x as int].kind.size(),
{
    assert(idxs.push(x).drop_last() =~= idxs);
    assert(idxs.push(x).last() == x);
}

/// Size is bounded by the per-field maximum times the selection's length.
pub proof fn lemma_size_cat_bound(fields: Seq<FieldModel>, idxs: Seq<usize>)
    requires
        forall|k: int| 0 <= k < idxs.len() ==> (#[trigger] idxs[k]) < fields.len(),
        forall|i: int| 0 <= i < fields.len() ==> (#[trigger] fields[i]).kind.wf(),
    ensures
        size_cat(fields, idxs) <= 2040 * idxs.len(),
    decreases idxs.len(),
{
    if idxs.len() > 0 {
        lemma_size_cat_bound(fields, idxs.drop_last());
        assert(fields[idxs.last() as int].kind.size() <= 2040);
    }
}

/// Sizes accumulate over concatenation of selections.
pub proof fn lemma_size_cat_add(fields: Seq<FieldModel>, a: Seq<usize>, b: Seq<usize>)
    ensures
        size_cat(fields, a + b) == size_cat(fields, a) + size_cat(fields, b),
    decreases b.len(),
{
    if b.len() == 0 {
        assert(a + b =~= a);
    } else {
        assert((a + b).drop_last() =~= a + b.drop_last());
        lemma_size_cat_add(fields, a, b.drop_last());
    }
}

/// Computes the wire order of a message's fields, together with the minimum
/// (base-fields-only) and full wire lengths.
#[verifier::rlimit(60)]
pub fn plan_layout(fields: &Vec<FieldModel>) -> (r: (Vec<usize>, usize, usize))
    requires
        wf_fields(fields@),
    ensures
        r.0@ == spec_wire_order(fields@),
        r.1 == spec_min_wire_len(fields@),
        r.2 == spec_full_wire_len(fields@),
{
    let mut order: Vec<usize> = Vec::new();
    let mut acc: usize = 0;
    let widths: [usize; 4] = [8, 4, 2, 1];
    let mut b: usize = 0;
    while b < 4
        invariant
            wf_fields(fields@),
            b <= 4,
            widths@ == seq![8usize, 4usize, 2usize, 1usize],
            order@ == prefix_buckets(fields@, b as int),
            forall|k: int| 0 <= k < order@.len() ==> (#[trigger] order@[k]) < fields@.len(),
            acc == size_cat(fields@, order@),
            acc <= 2040 * order@.len(),
            order@.len() <= (b as int) * fields@.len(),
        decreases 4 - b,
    {
        let w = widths[b];
        let ghost pre_order = order@;
        proof {
            assert(pre_order.len() <= 3 * fields@.len()) by (nonlinear_arith)
                requires
                    pre_order.len() <= (b as int) * fields@.len(),
                    0 <= b <= 3,
            ;
        }
        let mut i: usize = 0;
        while i < fields.len()
            invariant
                wf_fields(fields@),
                i <= fields@.len(),
                b < 4,
                w == seq![8usize, 4usize, 2usize, 1usize][b as int],
                order@ == pre_order + base_idxs_w(fields@.take(i as int), w as nat),
                forall|k: int| 0 <= k < order@.len() ==> (#[trigger] order@[k]) < fields@.len(),
                acc == size_cat(fields@, order@),
                acc <= 2040 * order@.len(),
                order@.len() <= pre_order.len() + i,
                pre_order.len() <= 3 * fields@.len(),
            decreases fields@.len() - i,
        {
            let f = &fields[i];
            proof {
                lemma_base_idxs_w_take_step(fields@, w as nat, i as int);
            }
            if !f.is_extension && f.kind.prim_of().byte_width() == w {
                let sz = f.kind.byte_size();
                proof {
                    lemma_size_cat_push(fields@, order@, i);
                    assert(order@.len() + 1 <= 1275);
                    assert(acc + sz <= 2040 * order@.len() + 2040);
                    assert(2040 * (order@.len() + 1) == 2040 * order@.len() + 2040);
                    assert(2040 * (order@.len() + 1) <= 2040 * 1275) by (nonlinear_arith)
                        requires
                            order@.len() + 1 <= 1275,
                    ;
                }
                order.push(i);
                acc = acc + sz;
                proof {
                    assert(order@ =~= pre_order + base_idxs_w(
                        fields@.take(i as int + 1),
                        w as nat,
                    ));
                }
            } else {
                proof {
                    assert(order@ == pre_order + base_idxs_w(fields@.take(i as int + 1), w as nat));
                }
            }
            i = i + 1;
        }
        proof {
            assert(fields@.take(fields@.len() as int) =~= fields@);
            assert(order@ =~= prefix_buckets(fields@, b as int + 1));
            assert((b as int + 1) * fields@.len() == (b as int) * fields@.len() + fields@.len())
                by (nonlinear_arith);
        }
        b = b + 1;
    }
    let min_len = acc;
    proof {
        assert(prefix_buckets(fields@, 4) == base_order(fields@));
    }
    let ghost pre_order = order@;
    let mut i: usize = 0;
    while i < fields.len()
        invariant
            wf_fields(fields@),
            i <= fields@.len(),
            pre_order == base_order(fields@),
            order@ == pre_order + ext_idxs(fields@.take(i as int)),
            forall|k: int| 0 <= k < order@.len() ==> (#[trigger] order@[k]) < fields@.len(),
            acc == size_cat(fields@, order@),
            acc <= 2040 * order@.len(),
            order@.len() <= pre_order.len() + i,
            pre_order.len() <= 4 * fields@.len(),
        decreases fields@.len() - i,
    {
        let f = &fields[i];
        proof {
            lemma_ext_idxs_take_step(fields@, i as int);
        }
        if f.is_extension {
            let sz = f.kind.byte_size();
            proof {
                lemma_size_cat_push(fields@, order@, i);
                assert(order@.len() + 1 <= 1275);
                assert(acc + sz <= 2040 * order@.len() + 2040);
                assert(2040 * (order@.len() + 1) == 2040 * order@.len() + 2040);
                assert(2040 * (order@.len() + 1) <= 2040 * 1275) by (nonlinear_arith)
                    requires
                        order@.len() + 1 <= 1275,
                ;
            }
            order.push(i);
            acc = acc + sz;
            proof {
                assert(order@ =~= pre_order + ext_idxs(fields@.take(i as int + 1)));
            }
        } else {
            proof {
                assert(order@ == pre_order + ext_idxs(fields@.take(i as int + 1)));
            }
        }
        i = i + 1;
    }
    proof {
        assert(fields@.take(fields@.len() as int) =~= fields@);
        assert(order@ == spec_wire_order(fields@));
        lemma_size_cat_add(fields@, base_order(fields@), ext_idxs(fields@));
    }
    (order, min_len, acc)
}

/// The first `b` width buckets of the base order (widths 8, 4, 2, 1).
pub open spec fn prefix_buckets(fields: Seq<FieldModel>, b: int) -> Seq<usize> {
    if b <= 0 {
        Seq::empty()
    } else if b == 1 {
        base_idxs_w(fields, 8)
    } else if b == 2 {
        base_idxs_w(fields, 8) + base_idxs_w(fields, 4)
    } else if b == 3 {
        base_idxs_w(fields, 8) + base_idxs_w(fields, 4) + base_idxs_w(fields, 2)
    } else {
        base_order(fields)
    }
}


/// Law: the wire order contains every declaration index exactly once: the
/// base fields first, sorted by strictly decreasing primitive byte width with
/// ties broken by ascending declaration index, then the extension fields in
/// declaration order.
pub proof fn lemma_wire_order_props(fields: Seq<FieldModel>)
    requires
        fields.len() <= usize::MAX,
    ensures
        forall|k: int|
            0 <= k < spec_wire_order(fields).len() ==> (#[trigger] spec_wire_order(fields)[k])
                < fields.len(),
        forall|i: int|
            0 <= i < fields.len() ==> #[trigger] spec_wire_order(fields).contains(i as usize),
        spec_wire_order(fields).no_duplicates(),
        forall|k: int|
            0 <= k < base_order(fields).len() ==> !fields[(
            #[trigger] base_order(fields)[k]) as int].is_extension,
        forall|k: int|
            base_order(fields).len() <= k < spec_wire_order(fields).len() ==> fields[(
            #[trigger] spec_wire_order(fields)[k]) as int].is_extension,
        forall|k1: int, k2: int|
            0 <= k1 < k2 < base_order(fields).len() ==> wire_pos_width(fields, k1) > wire_pos_width(
                fields,
                k2,
            ) || (wire_pos_width(fields, k1) == wire_pos_width(fields, k2) && base_order(
                fields,
            )[k1] < base_order(fields)[k2]),
        forall|k1: int, k2: int|
            base_order(fields).len() <= k1 < k2 < spec_wire_order(fields).len()
                ==> spec_wire_order(fields)[k1] < spec_wire_order(fields)[k2],
{
    lemma_base_idxs_w_props(fields, 8);
    lemma_base_idxs_w_props(fields, 4);
    lemma_base_idxs_w_props(fields, 2);
    lemma_base_idxs_w_props(fields, 1);
    lemma_ext_idxs_props(fields);
    let b8 = base_idxs_w(fields, 8);
    let b4 = base_idxs_w(fields, 4);
    let b2 = base_idxs_w(fields, 2);
    let b1 = base_idxs_w(fields, 1);
    let ex = ext_idxs(fields);
    let bo = base_order(fields);
    let order = spec_wire_order(fields);
    assert forall|k: int| 0 <= k < bo.len() implies seg_facts(fields, k) by {
        reveal(seg_facts);
    }
    assert forall|i: int|
        0 <= i < fields.len() implies #[trigger] spec_wire_order(fields).contains(i as usize) by {
        let f = fields[i];
        if f.is_extension {
            lemma_add_contains(bo, ex, i as usize);
        } else {
            assert(f.kind.prim().width() == 1 || f.kind.prim().width() == 2
                || f.kind.prim().width() == 4 || f.kind.prim().width() == 8);
            if f.kind.prim().width() == 8 {
                lemma_add_contains(b8, b4, i as usize);
                lemma_add_contains(b8 + b4, b2, i as usize);
                lemma_add_contains(b8 + b4 + b2, b1, i as usize);
            } else if f.kind.prim().width() == 4 {
                lemma_add_contains(b8, b4, i as usize);
                lemma_add_contains(b8 + b4, b2, i as usize);
                lemma_add_contains(b8 + b4 + b2, b1, i as usize);
            } else if f.kind.prim().width() == 2 {
                lemma_add_contains(b8 + b4, b2, i as usize);
                lemma_add_contains(b8 + b4 + b2, b1, i as usize);
            } else {
                lemma_add_contains(b8 + b4 + b2, b1, i as usize);
            }
            lemma_add_contains(bo, ex, i as usize);
        }
    }
    assert forall|k1: int, k2: int| 0 <= k1 < k2 < order.len() implies order[k1] != order[k2] by {
        if k2 < bo.len() {
            reveal(seg_facts);
            assert(seg_facts(fields, k1) && seg_facts(fields, k2));
            if wire_pos_width(fields, k1) == wire_pos_width(fields, k2) {
                assert(bo[k1] < bo[k2]);
            }
        } else if k1 >= bo.len() {
            assert(order[k1] == ex[k1 - bo.len()] && order[k2] == ex[k2 - bo.len()]);
        } else {
            reveal(seg_facts);
            assert(seg_facts(fields, k1));
            assert(!fields[order[k1] as int].is_extension);
            assert(order[k2] == ex[k2 - bo.len()]);
            assert(fields[order[k2] as int].is_extension);
        }
    }
    assert(order.no_duplicates());
    assert forall|k1: int, k2: int| 0 <= k1 < k2 < bo.len() implies wire_pos_width(fields, k1)
        > wire_pos_width(fields, k2) || (wire_pos_width(fields, k1) == wire_pos_width(fields, k2)
        && bo[k1] < bo[k2]) by {
        reveal(seg_facts);
        assert(seg_facts(fields, k1) && seg_facts(fields, k2));
    }
}

/// The primitive width of the base field at wire position `k`.
pub open spec fn wire_pos_width(fields: Seq<FieldModel>, k: int) -> nat {
    fields[base_order(fields)[k] as int].kind.prim().width()
}

/// Which width bucket the wire position `k` of the base order falls in, and
/// that the element there is a base field of that bucket's width.
#[verifier::opaque]
spec fn seg_facts(fields: Seq<FieldModel>, k: int) -> bool {
    let b8 = base_idxs_w(fields, 8);
    let b4 = base_idxs_w(fields, 4);
    let b2 = base_idxs_w(fields, 2);
    let b1 = base_idxs_w(fields, 1);
    let bo = base_order(fields);
    0 <= k < bo.len() ==> {
        &&& (k < b8.len() ==> bo[k] == b8[k] && wire_pos_width(fields, k) == 8)
        &&& (b8.len() <= k < b8.len() + b4.len() ==> bo[k] == b4[k - b8.len()]
            && wire_pos_width(fields, k) == 4)
        &&& (b8.len() + b4.len() <= k < b8.len() + b4.len() + b2.len() ==> bo[k] == b2[k - b8.len()
            - b4.len()] && wire_pos_width(fields, k) == 2)
        &&& (b8.len() + b4.len() + b2.len() <= k ==> bo[k] == b1[k - b8.len() - b4.len() - b2.len()]
            && wire_pos_width(fields, k) == 1)
    }
}


/// One step of the seeded running checksum: a 16-bit cyclic redundancy check
/// with the reflected polynomial the wire protocol prescribes.
pub open spec fn crc_step(crc: u16, b: u8) -> u16 {
    let tmp = b ^ (crc & 0xff) as u8;
    let tmp2 = tmp ^ (tmp << 4);
    (crc >> 8) ^ ((tmp2 as u16) << 8) ^ ((tmp2 as u16) << 3) ^ ((tmp2 as u16) >> 4)
}

/// The running checksum over a byte string, left to right, from seed `crc`.
pub open spec fn crc_bytes(crc: u16, bs: Seq<u8>) -> u16
    decreases bs.len(),
{
    if bs.len() == 0 {
        crc
    } else {
        crc_step(crc_bytes(crc, bs.drop_last()), bs.last())
    }
}

/// Folds the 16-bit running checksum to the one-byte `crc_extra`.
pub open spec fn fold_crc(crc: u16) -> u8 {
    ((crc & 0xff) ^ (crc >> 8)) as u8
}

/// What one field contributes to the checksum input: nothing for an
/// extension field; type name, field name (each followed by one space) and
/// the array length byte (0 for a scalar) for a base field.
pub open spec fn crc_field_part(f: FieldModel) -> Seq<u8> {
    if f.is_extension {
        Seq::empty()
    } else {
        f.kind.prim().schema_name() + seq![32u8] + f.name@ + seq![32u8] + seq![
            f.kind.array_len() as u8,
        ]
    }
}

/// The checksum input of a message: its name followed by one space, then
/// each base field's contribution in declaration order.
pub open spec fn crc_input(name: Seq<u8>, fields: Seq<FieldModel>) -> Seq<u8>
    decreases fields.len(),
{
    if fields.len() == 0 {
        name + seq![32u8]
    } else {
        crc_input(name, fields.drop_last()) + crc_field_part(fields.last())
    }
}

/// The one-byte compatibility checksum of a message.
pub open spec fn spec_crc_extra(name: Seq<u8>, fields: Seq<FieldModel>) -> u8 {
    fold_crc(crc_bytes(0xffff, crc_input(name, fields)))
}

/// The running checksum distributes over concatenation.
pub proof fn lemma_crc_bytes_add(c: u16, a: Seq<u8>, b: Seq<u8>)
    ensures
        crc_bytes(c, a + b) == crc_bytes(crc_bytes(c, a), b),
    decreases b.len(),
{
    if b.len() == 0 {
        assert(a + b =~= a);
    } else {
        assert((a + b).drop_last() =~= a + b.drop_last());
        lemma_crc_bytes_add(c, a, b.drop_last());
    }
}

proof fn lemma_crc_input_take_step(name: Seq<u8>, fields: Seq<FieldModel>, i: int)
    requires
        0 <= i < fields.len(),
    ensures
        crc_input(name, fields.take(i + 1)) == crc_input(name, fields.take(i)) + crc_field_part(
            fields[i],
        ),
{
    assert(fields.take(i + 1).drop_last() =~= fields.take(i));
    assert(fields.take(i + 1).last() == fields[i]);
}

/// One step of the running checksum, as executable code.
pub fn crc_accumulate(crc: u16, b: u8) -> (r: u16)
    ensures
        r == crc_step(crc, b),
{
    let tmp: u8 = b ^ (crc & 0xff) as u8;
    let tmp2: u8 = tmp ^ (tmp << 4u8);
    (crc >> 8u16) ^ ((tmp2 as u16) << 8u16) ^ ((tmp2 as u16) << 3u16) ^ ((tmp2 as u16) >> 4u16)
}

/// Accumulates a whole byte string into the running checksum.
pub fn crc_accumulate_bytes(crc: u16, bs: &Vec<u8>) -> (r: u16)
    ensures
        r == crc_bytes(crc, bs@),
{
    let mut c = crc;
    let mut i: usize = 0;
    while i < bs.len()
        invariant
            i <= bs@.len(),
            c == crc_bytes(crc, bs@.take(i as int)),
        decreases bs@.len() - i,
    {
        proof {
            assert(bs@.take(i as int + 1).drop_last() =~= bs@.take(i as int));
            assert(bs@.take(i as int + 1).last() == bs@[i as int]);
        }
        c = crc_accumulate(c, bs[i]);
        i = i + 1;
    }
    proof {
        assert(bs@.take(bs@.len() as int) =~= bs@);
    }
    c
}

/// Computes a message's `crc_extra`: the seeded running checksum over the
/// message name and, for base fields only and in declaration order, each
/// field's type name, field name, and array length, folded to one byte.
pub fn crc_extra(m: &MessageModel) -> (c: u8)
    requires
        wf_fields(m.fields@),
    ensures
        c == spec_crc_extra(m.name@, m.fields@),
{
    let mut crc: u16 = 0xffff;
    let ghost c0: u16 = 0xffff;
    crc = crc_accumulate_bytes(crc, &m.name);
    crc = crc_accumulate(crc, 32);
    proof {
        assert((m.name@ + seq![32u8]).drop_last() =~= m.name@);
        assert(crc == crc_bytes(c0, m.name@ + seq![32u8]));
        assert(m.fields@.take(0) =~= Seq::<FieldModel>::empty());
        assert(crc == crc_bytes(c0, crc_input(m.name@, m.fields@.take(0))));
    }
    let mut i: usize = 0;
    while i < m.fields.len()
        invariant
            wf_fields(m.fields@),
            i <= m.fields@.len(),
            c0 == 0xffff,
            crc == crc_bytes(c0, crc_input(m.name@, m.fields@.take(i as int))),
        decreases m.fields@.len() - i,
    {
        let f = &m.fields[i];
        let ghost fed = crc_input(m.name@, m.fields@.take(i as int));
        if !f.is_extension {
            let tn = f.kind.prim_of().schema_name_bytes();
            crc = crc_accumulate_bytes(crc, &tn);
            crc = crc_accumulate(crc, 32);
            crc = crc_accumulate_bytes(crc, &f.name);
            crc = crc_accumulate(crc, 32);
            crc = crc_accumulate(crc, f.kind.array_len_byte());
            proof {
                let p = crc_field_part(m.fields@[i as int]);
                let s1 = f.kind.prim().schema_name();
                let s2 = s1 + seq![32u8];
                let s3 = s2 + f.name@;
                let s4 = s3 + seq![32u8];
                let s5 = s4 + seq![f.kind.array_len() as u8];
                lemma_crc_bytes_add(c0, fed, s1);
                assert(s2.drop_last() =~= s1);
                lemma_crc_bytes_add(c0, fed, s2);
                assert(crc_bytes(crc_bytes(c0, fed), s2) == crc_step(
                    crc_bytes(crc_bytes(c0, fed), s1),
                    32,
                ));
                lemma_crc_bytes_add(c0, fed, s3);
                lemma_crc_bytes_add(crc_bytes(c0, fed), s2, f.name@);
                assert(s3 =~= s2 + f.name@);
                assert(s4.drop_last() =~= s3);
                lemma_crc_bytes_add(c0, fed, s4);
                assert(s5.drop_last() =~= s4);
                lemma_crc_bytes_add(c0, fed, s5);
                assert(p =~= s5);
                assert(crc == crc_bytes(c0, fed + p));
            }
        } else {
            proof {
                assert(fed + crc_field_part(m.fields@[i as int]) =~= fed);
            }
        }
        proof {
            lemma_crc_input_take_step(m.name@, m.fields@, i as int);
        }
        i = i + 1;
    }
    proof {
        assert(m.fields@.take(m.fields@.len() as int) =~= m.fields@);
    }
    ((crc & 0xff) ^ (crc >> 8u16)) as u8
}

/// The checksum inputs that a message contributes: per base field, in
/// declaration order, its (type name, field name, array length) triple.
pub open spec fn crc_triples(fields: Seq<FieldModel>) -> Seq<(Seq<u8>, Seq<u8>, nat)>
    decreases fields.len(),
{
    if fields.len() == 0 {
        Seq::empty()
    } else {
        let pre = crc_triples(fields.drop_last());
        let last = fields[fields.len() - 1];
        if last.is_extension {
            pre
        } else {
            pre.push((last.kind.prim().schema_name(), last.name@, last.kind.array_len()))
        }
    }
}

/// The checksum input written over the triples alone.
pub open spec fn crc_input_t(name: Seq<u8>, ts: Seq<(Seq<u8>, Seq<u8>, nat)>) -> Seq<u8>
    decreases ts.len(),
{
    if ts.len() == 0 {
        name + seq![32u8]
    } else {
        crc_input_t(name, ts.drop_last()) + (ts.last().0 + seq![32u8] + ts.last().1 + seq![32u8]
            + seq![ts.last().2 as u8])
    }
}

proof fn lemma_crc_input_from_triples(name: Seq<u8>, fields: Seq<FieldModel>)
    ensures
        crc_input(name, fields) == crc_input_t(name, crc_triples(fields)),
    decreases fields.len(),
{
    if fields.len() > 0 {
        let pre = fields.drop_last();
        lemma_crc_input_from_triples(name, pre);
        let last = fields[fields.len() - 1];
        if last.is_extension {
            assert(crc_input(name, fields) =~= crc_input(name, pre));
        } else {
            let ts = crc_triples(fields);
            assert(ts.drop_last() =~= crc_triples(pre));
            assert(ts.last() == (last.kind.prim().schema_name(), last.name@, last.kind.array_len()));
        }
    }
}

/// Law: `crc_extra` is a pure function of the message name and the base
/// fields' (type name, field name, array length) triples in declaration
/// order. Two messages that agree on those — whatever their descriptions,
/// units, extension fields, ids, or metadata — have the same checksum, on
/// every build.
pub proof fn lemma_crc_extra_from_triples(
    name1: Seq<u8>,
    fields1: Seq<FieldModel>,
    name2: Seq<u8>,
    fields2: Seq<FieldModel>,
)
    requires
        name1 == name2,
        crc_triples(fields1) == crc_triples(fields2),
    ensures
        spec_crc_extra(name1, fields1) == spec_crc_extra(name2, fields2),
{
    lemma_crc_input_from_triples(name1, fields1);
    lemma_crc_input_from_triples(name2, fields2);
}


} // verus!
