//! The cross-dialect binder: aggregates every per-dialect message set into
//! one addressable unit and dispatches a payload by an explicit dialect tag
//! and message id.
//!
//! Different dialects may reuse one numeric id for unrelated messages, so
//! `dispatch` always requires the dialect tag: there is deliberately no
//! dialect-agnostic lookup, which would silently misinterpret payloads.

use vstd::prelude::*;
use vstd::multiset::Multiset;
use crate::types::{FieldValue, MessageModel, MessageSet, WireError, wf_fields};
use crate::codec::{decode, spec_decoded, vals_fit, vv};
use crate::layout::spec_min_wire_len;
use crate::model::bytes_eq;

verus! {

/// Every per-dialect unit, in the order the driver aggregated them.
#[derive(Clone, Debug, PartialEq, Eq)]
pub struct AggregateUnit {
    pub units: Vec<MessageSet>,
}

/// A decoded message from some known dialect: the tagged union's payload.
#[derive(Clone, Debug, PartialEq, Eq)]
pub struct Decoded {
    pub dialect: Vec<u8>,
    pub id: u32,
    pub values: Vec<FieldValue>,
}

/// The first unit bound under the dialect tag, if any.
pub open spec fn spec_find_unit(units: Seq<MessageSet>, tag: Seq<u8>) -> Option<int>
    decreases units.len(),
{
    if units.len() == 0 {
        Option::None
    } else if units[0].name@ == tag {
        Option::Some(0int)
    } else {
        match spec_find_unit(units.drop_first(), tag) {
            Option::Some(i) => Option::Some(i + 1),
            Option::None => Option::None,
        }
    }
}

/// The first message of the set with the id, if any.
pub open spec fn spec_find_msg(ms: Seq<MessageModel>, id: u32) -> Option<int>
    decreases ms.len(),
{
    if ms.len() == 0 {
        Option::None
    } else if ms[0].id == id {
        Option::Some(0int)
    } else {
        match spec_find_msg(ms.drop_first(), id) {
            Option::Some(i) => Option::Some(i + 1),
            Option::None => Option::None,
        }
    }
}

proof fn lemma_find_unit_char(units: Seq<MessageSet>, tag: Seq<u8>, i: int)
    requires
        0 <= i <= units.len(),
        forall|q: int| 0 <= q < i ==> (#[trigger] units[q]).name@ != tag,
        i < units.len() ==> units[i].name@ == tag,
    ensures
        i < units.len() ==> spec_find_unit(units, tag) == Option::Some(i),
        i == units.len() ==> spec_find_unit(units, tag) is None,
    decreases units.len(),
{
    if units.len() > 0 && i > 0 {
        assert(units[0].name@ != tag);
        lemma_find_unit_char(units.drop_first(), tag, i - 1);
        assert(forall|q: int|
            0 <= q < i - 1 ==> (#[trigger] units.drop_first()[q]).name@ == units[q + 1].name@);
    }
}

proof fn lemma_find_msg_char(ms: Seq<MessageModel>, id: u32, i: int)
    requires
        0 <= i <= ms.len(),
        forall|q: int| 0 <= q < i ==> (#[trigger] ms[q]).id != id,
        i < ms.len() ==> ms[i].id == id,
    ensures
        i < ms.len() ==> spec_find_msg(ms, id) == Option::Some(i),
        i == ms.len() ==> spec_find_msg(ms, id) is None,
    decreases ms.len(),
{
    if ms.len() > 0 && i > 0 {
        assert(ms[0].id != id);
        lemma_find_msg_char(ms.drop_first(), id, i - 1);
        assert(forall|q: int|
            0 <= q < i - 1 ==> (#[trigger] ms.drop_first()[q]).id == ms[q + 1].id);
    }
}

/// Every message of every unit has a well-formed field list.
pub open spec fn wf_aggregate(agg: AggregateUnit) -> bool {
    forall|u: int, m: int|
        0 <= u < agg.units.len() && 0 <= m < (#[trigger] agg.units[u]).messages@.len()
            ==> wf_fields((#[trigger] agg.units[u].messages@[m]).fields@)
}

/// Byte strings in lexicographic order.
pub open spec fn lex_le(a: Seq<u8>, b: Seq<u8>) -> bool
    decreases a.len(),
{
    if a.len() == 0 {
        true
    } else if b.len() == 0 {
        false
    } else if a[0] < b[0] {
        true
    } else if a[0] > b[0] {
        false
    } else {
        lex_le(a.drop_first(), b.drop_first())
    }
}

proof fn lemma_lex_le_total(a: Seq<u8>, b: Seq<u8>)
    ensures
        lex_le(a, b) || lex_le(b, a),
    decreases a.len(),
{
    if a.len() > 0 && b.len() > 0 && a[0] == b[0] {
        lemma_lex_le_total(a.drop_first(), b.drop_first());
    }
}

proof fn lemma_lex_le_trans(a: Seq<u8>, b: Seq<u8>, c: Seq<u8>)
    requires
        lex_le(a, b),
        lex_le(b, c),
    ensures
        lex_le(a, c),
    decreases a.len(),
{
    if a.len() > 0 && b.len() > 0 && c.len() > 0 && a[0] == b[0] && b[0] == c[0] {
        lemma_lex_le_trans(a.drop_first(), b.drop_first(), c.drop_first());
    }
}

/// Decides the lexicographic order of two byte strings.
pub fn bytes_le(a: &Vec<u8>, b: &Vec<u8>) -> (r: bool)
    ensures
        r == lex_le(a@, b@),
{
    let mut i: usize = 0;
    proof {
        assert(a@.skip(0) =~= a@);
        assert(b@.skip(0) =~= b@);
    }
    while i < a.len() && i < b.len()
        invariant
            i <= a@.len(),
            i <= b@.len(),
            forall|q: int| 0 <= q < i ==> a@[q] == b@[q],
            lex_le(a@, b@) == lex_le(a@.skip(i as int), b@.skip(i as int)),
        decreases a@.len() - i,
    {
        proof {
            assert(a@.skip(i as int)[0] == a@[i as int]);
            assert(b@.skip(i as int)[0] == b@[i as int]);
            assert(a@.skip(i as int).drop_first() =~= a@.skip(i as int + 1));
            assert(b@.skip(i as int).drop_first() =~= b@.skip(i as int + 1));
        }
        if a[i] < b[i] {
            return true;
        }
        if a[i] > b[i] {
            return false;
        }
        i = i + 1;
    }
    proof {
        if i == a@.len() {
            assert(a@.skip(i as int) =~= Seq::<u8>::empty());
        } else {
            assert(b@.skip(i as int) =~= Seq::<u8>::empty());
            assert(a@.skip(i as int).len() > 0);
        }
    }
    i == a.len()
}

/// The units stand in lexicographic order of their dialect tags.
pub open spec fn sorted_by_tag(units: Seq<MessageSet>) -> bool {
    forall|i: int, j: int|
        0 <= i < j < units.len() ==> lex_le(
            (#[trigger] units[i]).name@,
            (#[trigger] units[j]).name@,
        )
}

/// Aggregates the per-dialect units with one deterministic merge: the output
/// holds the same units, sorted by dialect tag, so the bound namespace is
/// reproducible whatever order the per-dialect builds finished in.
pub fn bind(units: Vec<MessageSet>) -> (r: AggregateUnit)
    ensures
        r.units@.len() == units@.len(),
        sorted_by_tag(r.units@),
        r.units@.to_multiset() == units@.to_multiset(),
{
    broadcast use vstd::seq_lib::group_to_multiset_ensures;

    let mut rest = units;
    let mut out: Vec<MessageSet> = Vec::new();
    while rest.len() > 0
        invariant
            sorted_by_tag(out@),
            out@.to_multiset().add(rest@.to_multiset()) =~= units@.to_multiset(),
            out@.len() + rest@.len() == units@.len(),
        decreases rest@.len(),
    {
        let ghost rest_pre = rest@;
        let u = rest.remove(0);
        proof {
            broadcast use vstd::seq_lib::group_to_multiset_ensures;

            assert(rest@ =~= rest_pre.remove(0));
            assert(rest_pre.remove(0).to_multiset() =~= rest_pre.to_multiset().remove(u));
            assert(rest_pre.contains(u)) by {
                assert(rest_pre[0] == u);
            }
            assert(rest_pre.to_multiset().count(u) > 0);
            assert(rest_pre.to_multiset() =~= rest@.to_multiset().insert(u));
        }
        let mut p: usize = 0;
        while p < out.len() && bytes_le(&out[p].name, &u.name)
            invariant
                p <= out@.len(),
                forall|q: int| 0 <= q < p ==> lex_le((#[trigger] out@[q]).name@, u.name@),
            decreases out@.len() - p,
        {
            p = p + 1;
        }
        let ghost old_out = out@;
        out.insert(p, u);
        proof {
            broadcast use vstd::seq_lib::group_to_multiset_ensures;

            assert(out@.remove(p as int) =~= old_out);
            assert(out@[p as int] == u);
            assert(out@.remove(p as int).to_multiset() =~= out@.to_multiset().remove(u));
            assert(out@.contains(u)) by {
                assert(out@[p as int] == u);
            }
            assert(out@.to_multiset().count(u) > 0);
            assert(out@.to_multiset() =~= old_out.to_multiset().insert(u));
            assert(out@.to_multiset().add(rest@.to_multiset()) =~= units@.to_multiset()) by {
                assert(old_out.to_multiset().insert(u).add(rest@.to_multiset())
                    =~= old_out.to_multiset().add(rest@.to_multiset().insert(u)));
            }
            assert forall|i: int, j: int| 0 <= i < j < out@.len() implies lex_le(
                (#[trigger] out@[i]).name@,
                (#[trigger] out@[j]).name@,
            ) by {
                let pi = p as int;
                if j < pi {
                    assert(out@[i] == old_out[i] && out@[j] == old_out[j]);
                } else if i > pi {
                    assert(out@[i] == old_out[i - 1] && out@[j] == old_out[j - 1]);
                } else if i < pi && j == pi {
                    assert(out@[i] == old_out[i]);
                    assert(lex_le(old_out[i].name@, u.name@));
                } else if i < pi && j > pi {
                    assert(out@[i] == old_out[i] && out@[j] == old_out[j - 1]);
                } else {
                    // i == p < j: u goes before what it displaced
                    assert(out@[j] == old_out[j - 1]);
                    assert(pi < old_out.len());
                    lemma_lex_le_total(old_out[pi].name@, u.name@);
                    assert(lex_le(u.name@, old_out[pi].name@));
                    if j - 1 > pi {
                        lemma_lex_le_trans(u.name@, old_out[pi].name@, old_out[j - 1].name@);
                    }
                }
            }
        }
    }
    proof {
        assert(rest@.to_multiset() =~= Multiset::<MessageSet>::empty()) by {
            assert(rest@ =~= Seq::<MessageSet>::empty());
        }
        assert(out@.to_multiset().add(Multiset::<MessageSet>::empty()) =~= out@.to_multiset());
    }
    AggregateUnit { units: out }
}

/// Law (dispatch scoping) and dispatcher: decodes a payload as the message
/// `id` of the dialect `tag`. An unknown tag fails with `UnknownDialect`, a
/// known tag without the id with `UnknownMessageId`; otherwise the payload
/// is decoded exactly as that dialect's message defines — two dialects
/// reusing one id decode through their own field lists.
pub fn dispatch(agg: &AggregateUnit, tag: &Vec<u8>, id: u32, bytes: &Vec<u8>) -> (r: Result<
    Decoded,
    WireError,
>)
    requires
        wf_aggregate(*agg),
    ensures
        match spec_find_unit(agg.units@, tag@) {
            Option::None => r is Err && r->Err_0 == WireError::UnknownDialect,
            Option::Some(u) => match spec_find_msg(agg.units@[u].messages@, id) {
                Option::None => r is Err && r->Err_0 == WireError::UnknownMessageId,
                Option::Some(m) => ({
                    let fields = agg.units@[u].messages@[m].fields@;
                    match r {
                        Ok(d) => bytes@.len() >= spec_min_wire_len(fields) && d.dialect@ == tag@
                            && d.id == id && vv(d.values@) == spec_decoded(fields, bytes@),
                        Err(e) => e == WireError::TruncatedPayload && bytes@.len()
                            < spec_min_wire_len(fields),
                    }
                }),
            },
        },
{
    let mut u: usize = 0;
    while u < agg.units.len()
        invariant
            u <= agg.units@.len(),
            forall|q: int| 0 <= q < u ==> (#[trigger] agg.units@[q]).name@ != tag@,
            wf_aggregate(*agg),
        decreases agg.units@.len() - u,
    {
        if bytes_eq(&agg.units[u].name, tag) {
            proof {
                lemma_find_unit_char(agg.units@, tag@, u as int);
            }
            let unit = &agg.units[u];
            let mut m: usize = 0;
            while m < unit.messages.len()
                invariant
                    m <= unit.messages@.len(),
                    unit == &agg.units@[u as int],
                    u < agg.units@.len(),
                    spec_find_unit(agg.units@, tag@) == Option::Some(u as int),
                    forall|q: int| 0 <= q < m ==> (#[trigger] unit.messages@[q]).id != id,
                    wf_aggregate(*agg),
                decreases unit.messages@.len() - m,
            {
                if unit.messages[m].id == id {
                    proof {
                        lemma_find_msg_char(unit.messages@, id, m as int);
                        assert(wf_fields(agg.units@[u as int].messages@[m as int].fields@));
                    }
                    let msg = &unit.messages[m];
                    let decoded = decode(&msg.fields, bytes);
                    match decoded {
                        Ok(values) => {
                            let mut dialect: Vec<u8> = Vec::new();
                            let mut i: usize = 0;
                            while i < tag.len()
                                invariant
                                    i <= tag@.len(),
                                    dialect@ == tag@.take(i as int),
                                decreases tag@.len() - i,
                            {
                                dialect.push(tag[i]);
                                proof {
                                    assert(dialect@ =~= tag@.take(i as int + 1));
                                }
                                i = i + 1;
                            }
                            proof {
                                assert(tag@.take(tag@.len() as int) =~= tag@);
                            }
                            return Ok(Decoded { dialect, id, values });
                        },
                        Err(e) => {
                            return Err(e);
                        },
                    }
                }
                m = m + 1;
            }
            proof {
                lemma_find_msg_char(unit.messages@, id, unit.messages@.len() as int);
            }
            return Err(WireError::UnknownMessageId);
        }
        u = u + 1;
    }
    proof {
        lemma_find_unit_char(agg.units@, tag@, agg.units@.len() as int);
    }
    Err(WireError::UnknownDialect)
}

} // verus!
