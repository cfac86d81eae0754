//! The semantic model builder: resolves a dialect's import references into
//! an acyclic closure, flattens the closure by merging same-named enums
//! (union of entries) and collecting messages (same id is a hard error — see
//! the crate's policy note below), and validates the result.
//!
//! `resolve_closure` returns, importees first, exactly the files the root
//! transitively imports — and proves there is no import cycle among them.
//! `build`'s contract then pins the flattened set: its enum entries are
//! exactly the closure's, its messages copies of exactly the closure's, and
//! each duplicate error names an actual conflict in the closure.
//!
//! Policy: a message id defined twice anywhere in one closure aborts the
//! build with `DuplicateMessageId`; there is no "last import wins".

use vstd::prelude::*;
use crate::types::{
    BuildError, DialectFile, EnumEntry, EnumModel, FieldModel, MessageModel, MessageSet, wf_fields,
};

verus! {

/// The option's byte-string content, as a mathematical value.
pub open spec fn opt_view(o: Option<Vec<u8>>) -> Option<Seq<u8>> {
    match o {
        Option::Some(v) => Option::Some(v@),
        Option::None => Option::None,
    }
}

/// Some enum in `es` is named `en`.
pub open spec fn has_enum(es: Seq<EnumModel>, en: Seq<u8>) -> bool {
    exists|i: int| 0 <= i < es.len() && (#[trigger] es[i]).name@ == en
}

/// An entry named `n` with value `v` stands in the entry list `es`.
pub open spec fn entry_in(es: Seq<EnumEntry>, n: Seq<u8>, v: u64) -> bool {
    exists|j: int| 0 <= j < es.len() && (#[trigger] es[j]).name@ == n && es[j].value == v
}

/// The enum named `en` in `es` has an entry named `n` with value `v`.
pub open spec fn enum_entry_in(es: Seq<EnumModel>, en: Seq<u8>, n: Seq<u8>, v: u64) -> bool {
    exists|i: int|
        0 <= i < es.len() && (#[trigger] es[i]).name@ == en && entry_in(es[i].entries@, n, v)
}

/// Entry names are unique within the list.
pub open spec fn entry_names_unique(es: Seq<EnumEntry>) -> bool {
    forall|j1: int, j2: int|
        0 <= j1 < j2 < es.len() ==> (#[trigger] es[j1]).name@ != (#[trigger] es[j2]).name@
}

/// Well-formed enum list: enum names unique, entry names unique per enum.
pub open spec fn wf_enums(es: Seq<EnumModel>) -> bool {
    &&& forall|i1: int, i2: int|
        0 <= i1 < i2 < es.len() ==> (#[trigger] es[i1]).name@ != (#[trigger] es[i2]).name@
    &&& forall|i: int| 0 <= i < es.len() ==> entry_names_unique((#[trigger] es[i]).entries@)
}

/// Some message in `ms` carries the id.
pub open spec fn has_msg_id(ms: Seq<MessageModel>, id: u32) -> bool {
    exists|i: int| 0 <= i < ms.len() && (#[trigger] ms[i]).id == id
}

/// Message ids are unique within the list.
pub open spec fn msg_ids_unique(ms: Seq<MessageModel>) -> bool {
    forall|i1: int, i2: int| 0 <= i1 < i2 < ms.len() ==> (#[trigger] ms[i1]).id != (#[trigger] ms[i2]).id
}

/// Two field models with the same mathematical content.
pub open spec fn field_like(a: FieldModel, b: FieldModel) -> bool {
    &&& a.name@ == b.name@
    &&& a.kind == b.kind
    &&& a.is_extension == b.is_extension
    &&& opt_view(a.enum_ref) == opt_view(b.enum_ref)
    &&& a.units@ == b.units@
}

/// Two message models with the same mathematical content.
pub open spec fn msg_like(a: MessageModel, b: MessageModel) -> bool {
    &&& a.id == b.id
    &&& a.name@ == b.name@
    &&& a.description@ == b.description@
    &&& a.deprecated == b.deprecated
    &&& a.wip == b.wip
    &&& a.fields@.len() == b.fields@.len()
    &&& forall|k: int| 0 <= k < a.fields@.len() ==> field_like(#[trigger] a.fields@[k], b.fields@[k])
}

/// Byte-string equality, decided.
pub fn bytes_eq(a: &Vec<u8>, b: &Vec<u8>) -> (r: bool)
    ensures
        r == (a@ == b@),
{
    if a.len() != b.len() {
        return false;
    }
    let mut i: usize = 0;
    while i < a.len()
        invariant
            a@.len() == b@.len(),
            i <= a@.len(),
            forall|q: int| 0 <= q < i ==> a@[q] == b@[q],
        decreases a@.len() - i,
    {
        if a[i] != b[i] {
            return false;
        }
        i = i + 1;
    }
    proof {
        assert(a@ =~= b@);
    }
    true
}

fn copy_bytes(v: &Vec<u8>) -> (r: Vec<u8>)
    ensures
        r@ == v@,
{
    let mut out: Vec<u8> = Vec::new();
    let mut i: usize = 0;
    while i < v.len()
        invariant
            i <= v@.len(),
            out@ == v@.take(i as int),
        decreases v@.len() - i,
    {
        out.push(v[i]);
        proof {
            assert(out@ =~= v@.take(i as int + 1));
        }
        i = i + 1;
    }
    proof {
        assert(v@.take(v@.len() as int) =~= v@);
    }
    out
}

fn copy_opt_bytes(v: &Option<Vec<u8>>) -> (r: Option<Vec<u8>>)
    ensures
        opt_view(r) == opt_view(*v),
{
    match v {
        Option::Some(b) => Option::Some(copy_bytes(b)),
        Option::None => Option::None,
    }
}

fn copy_entry(e: &EnumEntry) -> (r: EnumEntry)
    ensures
        r.name@ == e.name@,
        r.value == e.value,
        r.description@ == e.description@,
        r.inherited == e.inherited,
{
    EnumEntry {
        value: e.value,
        name: copy_bytes(&e.name),
        description: copy_bytes(&e.description),
        inherited: e.inherited,
    }
}

fn copy_enum(e: &EnumModel) -> (r: EnumModel)
    ensures
        r.name@ == e.name@,
        r.is_bitmask == e.is_bitmask,
        r.entries@.len() == e.entries@.len(),
        forall|j: int|
            0 <= j < e.entries@.len() ==> (#[trigger] r.entries@[j]).name@ == e.entries@[j].name@
                && r.entries@[j].value == e.entries@[j].value && r.entries@[j].description@
                == e.entries@[j].description@ && r.entries@[j].inherited == e.entries@[j].inherited,
{
    let mut entries: Vec<EnumEntry> = Vec::new();
    let mut j: usize = 0;
    while j < e.entries.len()
        invariant
            j <= e.entries@.len(),
            entries@.len() == j,
            forall|q: int|
                0 <= q < j ==> (#[trigger] entries@[q]).name@ == e.entries@[q].name@
                    && entries@[q].value == e.entries@[q].value && entries@[q].description@
                    == e.entries@[q].description@ && entries@[q].inherited
                    == e.entries@[q].inherited,
        decreases e.entries@.len() - j,
    {
        entries.push(copy_entry(&e.entries[j]));
        j = j + 1;
    }
    EnumModel { name: copy_bytes(&e.name), entries, is_bitmask: e.is_bitmask }
}

fn copy_field(f: &FieldModel) -> (r: FieldModel)
    ensures
        field_like(r, *f),
{
    FieldModel {
        name: copy_bytes(&f.name),
        kind: f.kind,
        enum_ref: copy_opt_bytes(&f.enum_ref),
        units: copy_bytes(&f.units),
        is_extension: f.is_extension,
    }
}

fn copy_message(m: &MessageModel) -> (r: MessageModel)
    ensures
        msg_like(r, *m),
{
    let mut fields: Vec<FieldModel> = Vec::new();
    let mut j: usize = 0;
    while j < m.fields.len()
        invariant
            j <= m.fields@.len(),
            fields@.len() == j,
            forall|q: int| 0 <= q < j ==> field_like(#[trigger] fields@[q], m.fields@[q]),
        decreases m.fields@.len() - j,
    {
        fields.push(copy_field(&m.fields[j]));
        j = j + 1;
    }
    MessageModel {
        id: m.id,
        name: copy_bytes(&m.name),
        description: copy_bytes(&m.description),
        fields,
        deprecated: m.deprecated,
        wip: m.wip,
    }
}

/// The index of the enum named `name`, if any.
fn find_enum(es: &Vec<EnumModel>, name: &Vec<u8>) -> (o: Option<usize>)
    ensures
        match o {
            Option::Some(i) => i < es@.len() && es@[i as int].name@ == name@,
            Option::None => !has_enum(es@, name@),
        },
{
    let mut i: usize = 0;
    while i < es.len()
        invariant
            i <= es@.len(),
            forall|q: int| 0 <= q < i ==> (#[trigger] es@[q]).name@ != name@,
        decreases es@.len() - i,
    {
        if bytes_eq(&es[i].name, name) {
            return Option::Some(i);
        }
        i = i + 1;
    }
    Option::None
}

/// The index of the entry named `name`, if any.
fn find_entry(es: &Vec<EnumEntry>, name: &Vec<u8>) -> (o: Option<usize>)
    ensures
        match o {
            Option::Some(j) => j < es@.len() && es@[j as int].name@ == name@,
            Option::None => forall|q: int| 0 <= q < es@.len() ==> (#[trigger] es@[q]).name@ != name@,
        },
{
    let mut j: usize = 0;
    while j < es.len()
        invariant
            j <= es@.len(),
            forall|q: int| 0 <= q < j ==> (#[trigger] es@[q]).name@ != name@,
        decreases es@.len() - j,
    {
        if bytes_eq(&es[j].name, name) {
            return Option::Some(j);
        }
        j = j + 1;
    }
    Option::None
}

/// The index of the message with `id`, if any.
fn find_message(ms: &Vec<MessageModel>, id: u32) -> (o: Option<usize>)
    ensures
        match o {
            Option::Some(i) => i < ms@.len() && ms@[i as int].id == id,
            Option::None => !has_msg_id(ms@, id),
        },
{
    let mut i: usize = 0;
    while i < ms.len()
        invariant
            i <= ms@.len(),
            forall|q: int| 0 <= q < i ==> (#[trigger] ms@[q]).id != id,
        decreases ms@.len() - i,
    {
        if ms[i].id == id {
            return Option::Some(i);
        }
        i = i + 1;
    }
    Option::None
}

/// Two entry collections assign the same name different values.
pub open spec fn entries_conflict(a: Seq<EnumEntry>, b: Seq<EnumEntry>) -> bool {
    exists|n: Seq<u8>, v1: u64, v2: u64| v1 != v2 && #[trigger] entry_in(a, n, v1) && #[trigger] entry_in(b, n, v2)
}

/// Merges the entries of one incoming enum into the matching accumulated
/// enum: the union of entries, deduplicated by name, failing with
/// `DuplicateEnumEntry` when one name resolves to two different values.
fn merge_entries(cur: &mut Vec<EnumEntry>, add: &Vec<EnumEntry>) -> (r: Result<(), BuildError>)
    requires
        entry_names_unique(old(cur)@),
        entry_names_unique(add@),
    ensures
        r is Ok ==> entry_names_unique(final(cur)@),
        r is Ok ==> (forall|n: Seq<u8>, v: u64|
            #[trigger] entry_in(final(cur)@, n, v) <==> (entry_in(old(cur)@, n, v) || entry_in(
                add@,
                n,
                v,
            ))),
        r is Err ==> r->Err_0 == BuildError::DuplicateEnumEntry && entries_conflict(
            old(cur)@,
            add@,
        ),
{
    let ghost cur0 = cur@;
    let mut j: usize = 0;
    while j < add.len()
        invariant
            cur0 == old(cur)@,
            entry_names_unique(cur@),
            entry_names_unique(add@),
            j <= add@.len(),
            forall|n: Seq<u8>, v: u64|
                #[trigger] entry_in(cur@, n, v) <==> (entry_in(cur0, n, v) || entry_in(
                    add@.take(j as int),
                    n,
                    v,
                )),
        decreases add@.len() - j,
    {
        let x = &add[j];
        let found = find_entry(cur, &x.name);
        match found {
            Option::Some(jj) => {
                if cur[jj].value != x.value {
                    proof {
                        // the accumulated value came from cur0 or an earlier
                        // incoming entry; either way the two inputs conflict
                        let n = x.name@;
                        let v1 = cur@[jj as int].value;
                        let v2 = x.value;
                        assert(entry_in(cur@, n, v1));
                        assert(entry_in(add@, n, v2)) by {
                            assert(add@[j as int].name@ == n && add@[j as int].value == v2);
                        }
                        if entry_in(cur0, n, v1) {
                            assert(entries_conflict(cur0, add@));
                        } else {
                            assert(entry_in(add@.take(j as int), n, v1));
                            let q = choose|q: int|
                                0 <= q < j && (#[trigger] add@.take(j as int)[q]).name@ == n
                                    && add@.take(j as int)[q].value == v1;
                            assert(add@[q].name@ == n && add@[q].value == v1);
                            assert(false);  // add's entry names are unique
                        }
                    }
                    return Err(BuildError::DuplicateEnumEntry);
                }
                proof {
                    assert forall|n: Seq<u8>, v: u64| #[trigger] entry_in(cur@, n, v) <==> (
                    entry_in(cur0, n, v) || entry_in(add@.take(j as int + 1), n, v)) by {
                        if entry_in(add@.take(j as int + 1), n, v) && !entry_in(
                            add@.take(j as int),
                            n,
                            v,
                        ) {
                            let q = choose|q: int|
                                0 <= q < j + 1 && (#[trigger] add@.take(j as int + 1)[q]).name@
                                    == n && add@.take(j as int + 1)[q].value == v;
                            assert(q == j);
                            assert(n == x.name@ && v == x.value);
                            assert(cur@[jj as int].name@ == n && cur@[jj as int].value == v);
                        }
                        if entry_in(add@.take(j as int), n, v) {
                            let q = choose|q: int|
                                0 <= q < j && (#[trigger] add@.take(j as int)[q]).name@ == n
                                    && add@.take(j as int)[q].value == v;
                            assert(add@.take(j as int + 1)[q].name@ == n);
                        }
                    }
                }
            },
            Option::None => {
                let ghost pre = cur@;
                cur.push(copy_entry(x));
                proof {
                    assert forall|n: Seq<u8>, v: u64| #[trigger] entry_in(cur@, n, v) <==> (
                    entry_in(cur0, n, v) || entry_in(add@.take(j as int + 1), n, v)) by {
                        assert(cur@[pre.len() as int].name@ == x.name@);
                        assert(cur@[pre.len() as int].value == x.value);
                        if entry_in(cur@, n, v) {
                            let q = choose|q: int|
                                0 <= q < cur@.len() && (#[trigger] cur@[q]).name@ == n
                                    && cur@[q].value == v;
                            if q < pre.len() {
                                assert(entry_in(pre, n, v));
                            } else {
                                assert(add@.take(j as int + 1)[j as int].name@ == n);
                                assert(entry_in(add@.take(j as int + 1), n, v));
                            }
                        }
                        if entry_in(pre, n, v) {
                            let q = choose|q: int|
                                0 <= q < pre.len() && (#[trigger] pre[q]).name@ == n && pre[q].value
                                    == v;
                            assert(cur@[q].name@ == n && cur@[q].value == v);
                            assert(entry_in(cur@, n, v));
                        }
                        if entry_in(add@.take(j as int), n, v) {
                            let q = choose|q: int|
                                0 <= q < j && (#[trigger] add@.take(j as int)[q]).name@ == n
                                    && add@.take(j as int)[q].value == v;
                            assert(add@.take(j as int + 1)[q].name@ == n);
                            assert(entry_in(add@.take(j as int + 1), n, v));
                        }
                        if entry_in(add@.take(j as int + 1), n, v) && !entry_in(
                            add@.take(j as int),
                            n,
                            v,
                        ) {
                            let q = choose|q: int|
                                0 <= q < j + 1 && (#[trigger] add@.take(j as int + 1)[q]).name@
                                    == n && add@.take(j as int + 1)[q].value == v;
                            assert(q == j);
                            assert(cur@[pre.len() as int].name@ == n);
                            assert(entry_in(cur@, n, v));
                        }
                    }
                    assert(entry_names_unique(cur@)) by {
                        assert forall|j1: int, j2: int| 0 <= j1 < j2 < cur@.len() implies (
                        #[trigger] cur@[j1]).name@ != (#[trigger] cur@[j2]).name@ by {
                            if j2 == pre.len() {
                                assert(cur@[j1].name@ == pre[j1].name@);
                            }
                        }
                    }
                }
            },
        }
        j = j + 1;
    }
    proof {
        assert(add@.take(add@.len() as int) =~= add@);
        assert(entry_names_unique(cur@));
        assert(forall|n: Seq<u8>, v: u64|
            #[trigger] entry_in(cur@, n, v) <==> (entry_in(cur0, n, v) || entry_in(
                add@.take(add@.len() as int),
                n,
                v,
            )));
        assert(forall|n: Seq<u8>, v: u64|
            #[trigger] entry_in(cur@, n, v) <==> (entry_in(cur0, n, v) || entry_in(add@, n, v)));
    }
    Ok(())
}


fn copy_entries(es: &Vec<EnumEntry>) -> (r: Vec<EnumEntry>)
    ensures
        r@.len() == es@.len(),
        forall|q: int|
            0 <= q < es@.len() ==> (#[trigger] r@[q]).name@ == es@[q].name@ && r@[q].value
                == es@[q].value,
{
    let mut out: Vec<EnumEntry> = Vec::new();
    let mut j: usize = 0;
    while j < es.len()
        invariant
            j <= es@.len(),
            out@.len() == j,
            forall|q: int|
                0 <= q < j ==> (#[trigger] out@[q]).name@ == es@[q].name@ && out@[q].value
                    == es@[q].value,
        decreases es@.len() - j,
    {
        out.push(copy_entry(&es[j]));
        j = j + 1;
    }
    out
}

/// Pointwise-equal entry lists hold the same entries.
proof fn lemma_entry_in_pointwise(a: Seq<EnumEntry>, b: Seq<EnumEntry>)
    requires
        a.len() == b.len(),
        forall|q: int|
            0 <= q < a.len() ==> (#[trigger] a[q]).name@ == b[q].name@ && a[q].value == b[q].value,
    ensures
        forall|n: Seq<u8>, v: u64| #[trigger] entry_in(a, n, v) <==> entry_in(b, n, v),
{
    assert forall|n: Seq<u8>, v: u64| #[trigger] entry_in(a, n, v) <==> entry_in(b, n, v) by {
        if entry_in(a, n, v) {
            let q = choose|q: int| 0 <= q < a.len() && (#[trigger] a[q]).name@ == n && a[q].value == v;
            assert(b[q].name@ == n && b[q].value == v);
        }
        if entry_in(b, n, v) {
            let q = choose|q: int| 0 <= q < b.len() && (#[trigger] b[q]).name@ == n && b[q].value == v;
            assert(a[q].name@ == n && a[q].value == v);
        }
    }
}

/// Two enum collections (or one of them) give one entry name of one enum two
/// different values.
pub open spec fn enums_conflict(a: Seq<EnumModel>, b: Seq<EnumModel>) -> bool {
    exists|en: Seq<u8>, n: Seq<u8>, v1: u64, v2: u64|
        v1 != v2 && (#[trigger] enum_entry_in(a, en, n, v1) || enum_entry_in(b, en, n, v1)) && (
        #[trigger] enum_entry_in(a, en, n, v2) || enum_entry_in(b, en, n, v2))
}

/// Merges an incoming enum collection into the accumulated one: same-named
/// enums by union of entries, new names appended; fails with
/// `DuplicateEnumEntry` when one entry name of one enum resolves to two
/// different values anywhere in the union.
#[verifier::rlimit(80)]
pub fn merge_enum_lists(acc: &mut Vec<EnumModel>, add: &Vec<EnumModel>) -> (r: Result<
    (),
    BuildError,
>)
    requires
        wf_enums(old(acc)@),
        wf_enums(add@),
    ensures
        r is Ok ==> wf_enums(final(acc)@),
        r is Ok ==> (forall|en: Seq<u8>|
            #[trigger] has_enum(final(acc)@, en) <==> (has_enum(old(acc)@, en) || has_enum(
                add@,
                en,
            ))),
        r is Ok ==> (forall|en: Seq<u8>, n: Seq<u8>, v: u64|
            #[trigger] enum_entry_in(final(acc)@, en, n, v) <==> (enum_entry_in(old(acc)@, en, n, v)
                || enum_entry_in(add@, en, n, v))),
        r is Err ==> r->Err_0 == BuildError::DuplicateEnumEntry && enums_conflict(
            old(acc)@,
            add@,
        ),
{
    let ghost acc0 = acc@;
    let mut p: usize = 0;
    while p < add.len()
        invariant
            acc0 == old(acc)@,
            wf_enums(acc@),
            wf_enums(add@),
            p <= add@.len(),
            forall|en: Seq<u8>|
                #[trigger] has_enum(acc@, en) <==> (has_enum(acc0, en) || has_enum(
                    add@.take(p as int),
                    en,
                )),
            forall|en: Seq<u8>, n: Seq<u8>, v: u64|
                #[trigger] enum_entry_in(acc@, en, n, v) <==> (enum_entry_in(acc0, en, n, v)
                    || enum_entry_in(add@.take(p as int), en, n, v)),
        decreases add@.len() - p,
    {
        let e = &add[p];
        let ghost pre = acc@;
        let found = find_enum(acc, &e.name);
        match found {
            Option::Some(i) => {
                let mut cur_entries = copy_entries(&acc[i].entries);
                proof {
                    lemma_entry_in_pointwise(cur_entries@, acc@[i as int].entries@);
                    assert(entry_names_unique(cur_entries@)) by {
                        assert(entry_names_unique(acc@[i as int].entries@));
                    }
                }
                let ghost cur_before = cur_entries@;
                let merged = merge_entries(&mut cur_entries, &e.entries);
                match merged {
                    Err(er) => {
                        proof {
                            let en = e.name@;
                            assert(entries_conflict(cur_before, e.entries@));
                            let (n, v1, v2) = choose|n: Seq<u8>, v1: u64, v2: u64|
                                v1 != v2 && #[trigger] entry_in(cur_before, n, v1)
                                    && #[trigger] entry_in(e.entries@, n, v2);
                            assert(entry_in(acc@[i as int].entries@, n, v1));
                            assert(enum_entry_in(acc@, en, n, v1));
                            assert(enum_entry_in(add@, en, n, v2)) by {
                                assert(add@[p as int].name@ == en && entry_in(
                                    add@[p as int].entries@,
                                    n,
                                    v2,
                                ));
                            }
                            let b1 = enum_entry_in(acc0, en, n, v2);
                            let b2 = enum_entry_in(acc0, en, n, v1);
                            if b2 {
                                assert(enum_entry_in(acc0, en, n, v1) || enum_entry_in(
                                    add@,
                                    en,
                                    n,
                                    v1,
                                ));
                                assert(enum_entry_in(acc0, en, n, v2) || enum_entry_in(
                                    add@,
                                    en,
                                    n,
                                    v2,
                                ));
                                assert(enums_conflict(acc0, add@));
                            } else {
                                assert(enum_entry_in(add@.take(p as int), en, n, v1));
                                let q = choose|q: int|
                                    0 <= q < p && (#[trigger] add@.take(p as int)[q]).name@ == en
                                        && entry_in(add@.take(p as int)[q].entries@, n, v1);
                                assert(add@[q].name@ == en && entry_in(add@[q].entries@, n, v1));
                                assert(enum_entry_in(add@, en, n, v1));
                                assert(enums_conflict(acc0, add@));
                            }
                        }
                        return Err(er);
                    },
                    Ok(u) => {
                        let newe = EnumModel {
                            name: copy_bytes(&acc[i].name),
                            entries: cur_entries,
                            is_bitmask: acc[i].is_bitmask,
                        };
                        vstd::std_specs::core::index_set(acc, i, newe);
                        proof {
                            assert(acc@ == pre.update(i as int, newe));
                            assert(newe.name@ == pre[i as int].name@);
                            assert(newe.name@ == e.name@);
                            assert forall|en: Seq<u8>| #[trigger] has_enum(acc@, en) <==> (
                            has_enum(acc0, en) || has_enum(add@.take(p as int + 1), en)) by {
                                if has_enum(acc@, en) {
                                    let q = choose|q: int|
                                        0 <= q < acc@.len() && (#[trigger] acc@[q]).name@ == en;
                                    assert(pre[q].name@ == en);
                                    assert(has_enum(pre, en));
                                }
                                if has_enum(pre, en) {
                                    let q = choose|q: int|
                                        0 <= q < pre.len() && (#[trigger] pre[q]).name@ == en;
                                    assert(acc@[q].name@ == en);
                                    assert(has_enum(acc@, en));
                                }
                                if has_enum(add@.take(p as int + 1), en) && !has_enum(
                                    add@.take(p as int),
                                    en,
                                ) {
                                    let q = choose|q: int|
                                        0 <= q < p + 1 && (#[trigger] add@.take(p as int + 1)[q]).name@
                                            == en;
                                    assert(q == p);
                                    assert(en == e.name@);
                                    assert(acc@[i as int].name@ == en);
                                    assert(has_enum(acc@, en));
                                }
                                if has_enum(add@.take(p as int), en) {
                                    let q = choose|q: int|
                                        0 <= q < p && (#[trigger] add@.take(p as int)[q]).name@ == en;
                                    assert(add@.take(p as int + 1)[q].name@ == en);
                                    assert(has_enum(add@.take(p as int + 1), en));
                                }
                            }
                            assert forall|en: Seq<u8>, n: Seq<u8>, v: u64|
                                #[trigger] enum_entry_in(acc@, en, n, v) <==> (enum_entry_in(
                                acc0,
                                en,
                                n,
                                v,
                            ) || enum_entry_in(add@.take(p as int + 1), en, n, v)) by {
                                if enum_entry_in(acc@, en, n, v) {
                                    let q = choose|q: int|
                                        0 <= q < acc@.len() && (#[trigger] acc@[q]).name@ == en
                                            && entry_in(acc@[q].entries@, n, v);
                                    if q != i {
                                        assert(pre[q].name@ == en && entry_in(
                                            pre[q].entries@,
                                            n,
                                            v,
                                        ));
                                        assert(enum_entry_in(pre, en, n, v));
                                    } else {
                                        // merged entries: from the old enum or the incoming one
                                        assert(entry_in(cur_before, n, v) || entry_in(
                                            e.entries@,
                                            n,
                                            v,
                                        ));
                                        if entry_in(cur_before, n, v) {
                                            assert(entry_in(pre[i as int].entries@, n, v));
                                            assert(enum_entry_in(pre, en, n, v));
                                        } else {
                                            assert(add@.take(p as int + 1)[p as int].name@ == en);
                                            assert(enum_entry_in(add@.take(p as int + 1), en, n, v));
                                        }
                                    }
                                }
                                if enum_entry_in(pre, en, n, v) {
                                    let q = choose|q: int|
                                        0 <= q < pre.len() && (#[trigger] pre[q]).name@ == en
                                            && entry_in(pre[q].entries@, n, v);
                                    if q != i {
                                        assert(acc@[q].name@ == en && entry_in(
                                            acc@[q].entries@,
                                            n,
                                            v,
                                        ));
                                        assert(enum_entry_in(acc@, en, n, v));
                                    } else {
                                        assert(entry_in(cur_before, n, v));
                                        assert(entry_in(acc@[i as int].entries@, n, v));
                                        assert(enum_entry_in(acc@, en, n, v));
                                    }
                                }
                                if enum_entry_in(add@.take(p as int + 1), en, n, v) && !enum_entry_in(
                                    add@.take(p as int),
                                    en,
                                    n,
                                    v,
                                ) {
                                    let q = choose|q: int|
                                        0 <= q < p + 1 && (#[trigger] add@.take(p as int + 1)[q]).name@
                                            == en && entry_in(
                                            add@.take(p as int + 1)[q].entries@,
                                            n,
                                            v,
                                        );
                                    assert(q == p);
                                    assert(en == e.name@ && entry_in(e.entries@, n, v));
                                    assert(entry_in(acc@[i as int].entries@, n, v));
                                    assert(enum_entry_in(acc@, en, n, v));
                                }
                                if enum_entry_in(add@.take(p as int), en, n, v) {
                                    let q = choose|q: int|
                                        0 <= q < p && (#[trigger] add@.take(p as int)[q]).name@ == en
                                            && entry_in(add@.take(p as int)[q].entries@, n, v);
                                    assert(add@.take(p as int + 1)[q].name@ == en);
                                    assert(entry_in(add@.take(p as int + 1)[q].entries@, n, v));
                                    assert(enum_entry_in(add@.take(p as int + 1), en, n, v));
                                }
                            }
                            assert(wf_enums(acc@)) by {
                                assert forall|i1: int, i2: int| 0 <= i1 < i2 < acc@.len() implies (
                                #[trigger] acc@[i1]).name@ != (#[trigger] acc@[i2]).name@ by {
                                    assert(pre[i1].name@ == acc@[i1].name@);
                                    assert(pre[i2].name@ == acc@[i2].name@);
                                }
                                assert forall|q: int| 0 <= q < acc@.len() implies entry_names_unique(
                                    (#[trigger] acc@[q]).entries@,
                                ) by {
                                    if q != i {
                                        assert(acc@[q] == pre[q]);
                                    }
                                }
                            }
                        }
                    },
                }
            },
            Option::None => {
                let newe = copy_enum(e);
                proof {
                    lemma_entry_in_pointwise(newe.entries@, e.entries@);
                }
                acc.push(newe);
                proof {
                    assert(acc@ == pre.push(newe));
                    assert(acc@[pre.len() as int].name@ == e.name@);
                    assert forall|en: Seq<u8>| #[trigger] has_enum(acc@, en) <==> (has_enum(
                        acc0,
                        en,
                    ) || has_enum(add@.take(p as int + 1), en)) by {
                        if has_enum(acc@, en) {
                            let q = choose|q: int|
                                0 <= q < acc@.len() && (#[trigger] acc@[q]).name@ == en;
                            if q < pre.len() {
                                assert(has_enum(pre, en));
                            } else {
                                assert(add@.take(p as int + 1)[p as int].name@ == en);
                                assert(has_enum(add@.take(p as int + 1), en));
                            }
                        }
                        if has_enum(pre, en) {
                            let q = choose|q: int| 0 <= q < pre.len() && (#[trigger] pre[q]).name@ == en;
                            assert(acc@[q].name@ == en);
                            assert(has_enum(acc@, en));
                        }
                        if has_enum(add@.take(p as int + 1), en) && !has_enum(add@.take(p as int), en) {
                            let q = choose|q: int|
                                0 <= q < p + 1 && (#[trigger] add@.take(p as int + 1)[q]).name@ == en;
                            assert(q == p);
                            assert(acc@[pre.len() as int].name@ == en);
                            assert(has_enum(acc@, en));
                        }
                        if has_enum(add@.take(p as int), en) {
                            let q = choose|q: int|
                                0 <= q < p && (#[trigger] add@.take(p as int)[q]).name@ == en;
                            assert(add@.take(p as int + 1)[q].name@ == en);
                            assert(has_enum(add@.take(p as int + 1), en));
                        }
                    }
                    assert forall|en: Seq<u8>, n: Seq<u8>, v: u64|
                        #[trigger] enum_entry_in(acc@, en, n, v) <==> (enum_entry_in(acc0, en, n, v)
                            || enum_entry_in(add@.take(p as int + 1), en, n, v)) by {
                        if enum_entry_in(acc@, en, n, v) {
                            let q = choose|q: int|
                                0 <= q < acc@.len() && (#[trigger] acc@[q]).name@ == en && entry_in(
                                    acc@[q].entries@,
                                    n,
                                    v,
                                );
                            if q < pre.len() {
                                assert(enum_entry_in(pre, en, n, v));
                            } else {
                                assert(entry_in(e.entries@, n, v));
                                assert(add@.take(p as int + 1)[p as int].name@ == en);
                                assert(entry_in(add@.take(p as int + 1)[p as int].entries@, n, v));
                                assert(enum_entry_in(add@.take(p as int + 1), en, n, v));
                            }
                        }
                        if enum_entry_in(pre, en, n, v) {
                            let q = choose|q: int|
                                0 <= q < pre.len() && (#[trigger] pre[q]).name@ == en && entry_in(
                                    pre[q].entries@,
                                    n,
                                    v,
                                );
                            assert(acc@[q].name@ == en && entry_in(acc@[q].entries@, n, v));
                            assert(enum_entry_in(acc@, en, n, v));
                        }
                        if enum_entry_in(add@.take(p as int + 1), en, n, v) && !enum_entry_in(
                            add@.take(p as int),
                            en,
                            n,
                            v,
                        ) {
                            let q = choose|q: int|
                                0 <= q < p + 1 && (#[trigger] add@.take(p as int + 1)[q]).name@ == en
                                    && entry_in(add@.take(p as int + 1)[q].entries@, n, v);
                            assert(q == p);
                            assert(entry_in(e.entries@, n, v));
                            assert(entry_in(acc@[pre.len() as int].entries@, n, v));
                            assert(enum_entry_in(acc@, en, n, v));
                        }
                        if enum_entry_in(add@.take(p as int), en, n, v) {
                            let q = choose|q: int|
                                0 <= q < p && (#[trigger] add@.take(p as int)[q]).name@ == en
                                    && entry_in(add@.take(p as int)[q].entries@, n, v);
                            assert(add@.take(p as int + 1)[q].name@ == en);
                            assert(entry_in(add@.take(p as int + 1)[q].entries@, n, v));
                            assert(enum_entry_in(add@.take(p as int + 1), en, n, v));
                        }
                    }
                    assert(wf_enums(acc@)) by {
                        assert forall|i1: int, i2: int| 0 <= i1 < i2 < acc@.len() implies (
                        #[trigger] acc@[i1]).name@ != (#[trigger] acc@[i2]).name@ by {
                            if i2 == pre.len() {
                                assert(acc@[i1].name@ == pre[i1].name@);
                                assert(!has_enum(pre, e.name@));
                            } else {
                                assert(acc@[i1] == pre[i1] && acc@[i2] == pre[i2]);
                            }
                        }
                        assert forall|q: int| 0 <= q < acc@.len() implies entry_names_unique(
                            (#[trigger] acc@[q]).entries@,
                        ) by {
                            if q < pre.len() {
                                assert(acc@[q] == pre[q]);
                            } else {
                                assert(entry_names_unique(e.entries@));
                                assert(acc@[q].entries@.len() == e.entries@.len());
                            }
                        }
                    }
                }
            },
        }
        p = p + 1;
    }
    proof {
        assert(add@.take(add@.len() as int) =~= add@);
    }
    Ok(())
}



/// Appends an incoming message collection: every id must be new; a repeated
/// id aborts with `DuplicateMessageId` (hard-error policy, see module note).
pub fn merge_message_lists(acc: &mut Vec<MessageModel>, add: &Vec<MessageModel>) -> (r: Result<
    (),
    BuildError,
>)
    requires
        msg_ids_unique(old(acc)@),
        msg_ids_unique(add@),
    ensures
        r is Ok ==> msg_ids_unique(final(acc)@) && final(acc)@.len() == old(acc)@.len()
            + add@.len() && (forall|k: int|
            0 <= k < old(acc)@.len() ==> final(acc)@[k] == old(acc)@[k]) && (forall|k: int|
            0 <= k < add@.len() ==> msg_like(
                #[trigger] final(acc)@[old(acc)@.len() + k],
                add@[k],
            )),
        r is Err ==> r->Err_0 == BuildError::DuplicateMessageId && (exists|i: int, j: int|
            0 <= i < old(acc)@.len() && 0 <= j < add@.len() && (#[trigger] old(acc)@[i]).id == (
            #[trigger] add@[j]).id),
{
    let ghost acc0 = acc@;
    let mut p: usize = 0;
    while p < add.len()
        invariant
            acc0 == old(acc)@,
            msg_ids_unique(acc@),
            msg_ids_unique(add@),
            p <= add@.len(),
            acc@.len() == acc0.len() + p,
            forall|k: int| 0 <= k < acc0.len() ==> acc@[k] == acc0[k],
            forall|k: int| 0 <= k < p ==> msg_like(#[trigger] acc@[acc0.len() + k], add@[k]),
        decreases add@.len() - p,
    {
        let m = &add[p];
        let found = find_message(acc, m.id);
        match found {
            Option::Some(i) => {
                proof {
                    if i < acc0.len() {
                        assert(acc0[i as int].id == add@[p as int].id);
                    } else {
                        let k = i - acc0.len();
                        assert(msg_like(acc@[acc0.len() + k as int], add@[k as int]));
                        assert(add@[k as int].id == add@[p as int].id);
                        assert(false);
                    }
                }
                return Err(BuildError::DuplicateMessageId);
            },
            Option::None => {
                acc.push(copy_message(m));
                proof {
                    assert forall|i1: int, i2: int| 0 <= i1 < i2 < acc@.len() implies (
                    #[trigger] acc@[i1]).id != (#[trigger] acc@[i2]).id by {
                        if i2 == acc@.len() - 1 {
                            assert(!has_msg_id(acc@.drop_last(), m.id));
                            assert(acc@.drop_last()[i1] == acc@[i1]);
                        }
                    }
                }
            },
        }
        p = p + 1;
    }
    Ok(())
}

/// Every field's enum reference names an enum of the collection.
pub open spec fn refs_resolved(es: Seq<EnumModel>, fields: Seq<FieldModel>) -> bool {
    forall|k: int|
        0 <= k < fields.len() ==> match (#[trigger] fields[k]).enum_ref {
            Option::Some(nm) => has_enum(es, nm@),
            Option::None => true,
        }
}

/// Validates a flattened closure: every array length positive and at most
/// 255 (`InvalidArrayLength`), every field list one run of base fields then
/// one run of extensions and at most 255 fields (`MalformedMessage`), every
/// enum reference resolved (`UnknownEnumReference`).
pub fn validate_set(enums: &Vec<EnumModel>, messages: &Vec<MessageModel>) -> (r: Result<
    (),
    BuildError,
>)
    ensures
        r is Ok ==> (forall|i: int|
            0 <= i < messages@.len() ==> wf_fields((#[trigger] messages@[i]).fields@)
                && refs_resolved(enums@, messages@[i].fields@)),
        r is Err ==> (r->Err_0 == BuildError::UnknownEnumReference || r->Err_0
            == BuildError::InvalidArrayLength || r->Err_0 == BuildError::MalformedMessage),
        r is Err && r->Err_0 == BuildError::UnknownEnumReference ==> (exists|i: int, k: int|
            0 <= i < messages@.len() && 0 <= k < messages@[i].fields@.len()
                && match (#[trigger] messages@[i].fields@[k]).enum_ref {
                Option::Some(nm) => !has_enum(enums@, nm@),
                Option::None => false,
            }),
        r is Err && r->Err_0 == BuildError::InvalidArrayLength ==> (exists|i: int, k: int|
            0 <= i < messages@.len() && 0 <= k < messages@[i].fields@.len()
                && !(#[trigger] messages@[i].fields@[k]).kind.wf()),
        r is Err && r->Err_0 == BuildError::MalformedMessage ==> (exists|i: int|
            0 <= i < messages@.len() && !(crate::types::base_then_ext(
                (#[trigger] messages@[i]).fields@,
            ) && messages@[i].fields@.len() <= 255)),
{
    let mut i: usize = 0;
    while i < messages.len()
        invariant
            i <= messages@.len(),
            forall|q: int|
                0 <= q < i ==> wf_fields((#[trigger] messages@[q]).fields@) && refs_resolved(
                    enums@,
                    messages@[q].fields@,
                ),
        decreases messages@.len() - i,
    {
        let m = &messages[i];
        if m.fields.len() > 255 {
            return Err(BuildError::MalformedMessage);
        }
        let mut seen_ext = false;
        let mut k: usize = 0;
        while k < m.fields.len()
            invariant
                k <= m.fields@.len(),
                m == &messages@[i as int],
                i < messages@.len(),
                seen_ext == (exists|q: int|
                    0 <= q < k && (#[trigger] m.fields@[q]).is_extension),
                crate::types::base_then_ext(m.fields@.take(k as int)),
                forall|q: int| 0 <= q < k ==> (#[trigger] m.fields@[q]).kind.wf(),
                forall|q: int|
                    0 <= q < k ==> match (#[trigger] m.fields@[q]).enum_ref {
                        Option::Some(nm) => has_enum(enums@, nm@),
                        Option::None => true,
                    },
            decreases m.fields@.len() - k,
        {
            let f = &m.fields[k];
            match f.kind {
                crate::types::FieldKind::Scalar(_) => {},
                crate::types::FieldKind::Array(_, n) => {
                    if n == 0 || n > 255 {
                        return Err(BuildError::InvalidArrayLength);
                    }
                },
            }
            if f.is_extension {
                seen_ext = true;
                proof {
                    assert(m.fields@[k as int].is_extension);
                }
            } else {
                if seen_ext {
                    proof {
                        let q = choose|q: int|
                            0 <= q < k && (#[trigger] m.fields@[q]).is_extension;
                        assert(!crate::types::base_then_ext(m.fields@));
                    }
                    return Err(BuildError::MalformedMessage);
                }
            }
            match &f.enum_ref {
                Option::Some(nm) => {
                    let found = find_enum(enums, nm);
                    if found.is_none() {
                        return Err(BuildError::UnknownEnumReference);
                    }
                },
                Option::None => {},
            }
            proof {
                assert(crate::types::base_then_ext(m.fields@.take(k as int + 1))) by {
                    assert forall|a: int, b: int|
                        #![trigger m.fields@.take(k as int + 1)[a], m.fields@.take(k as int + 1)[b]]
                        0 <= a <= b < k + 1 && m.fields@.take(k as int + 1)[a].is_extension
                            implies m.fields@.take(k as int + 1)[b].is_extension by {
                        if b == k {
                            if a < k {
                                assert(m.fields@[a].is_extension);
                                assert(seen_ext || m.fields@[k as int].is_extension);
                            }
                        }
                    }
                }
            }
            k = k + 1;
        }
        proof {
            assert(m.fields@.take(m.fields@.len() as int) =~= m.fields@);
        }
        i = i + 1;
    }
    Ok(())
}

/// File `b` is one of file `a`'s import references.
pub open spec fn import_link(files: Seq<DialectFile>, a: int, b: int) -> bool {
    exists|r: int|
        0 <= r < files[a].imports@.len() && (#[trigger] files[a].imports@[r])@ == files[b].path@
}

/// A chain of import links that returns to its first file: a true cycle.
pub open spec fn is_import_cycle(files: Seq<DialectFile>, p: Seq<usize>) -> bool {
    &&& p.len() >= 2
    &&& forall|k: int| 0 <= k < p.len() ==> (#[trigger] p[k]) < files.len()
    &&& forall|k: int| 0 <= k < p.len() - 1 ==> import_link(files, #[trigger] p[k] as int, p[k + 1] as int)
    &&& p[0] == p[p.len() - 1]
}

/// Some loaded file references a path that no loaded file carries.
pub open spec fn missing_import(files: Seq<DialectFile>) -> bool {
    exists|a: int, r: int|
        0 <= a < files.len() && 0 <= r < files[a].imports@.len() && (forall|b: int|
            0 <= b < files.len() ==> (#[trigger] files[b]).path@ != #[trigger] files[a].imports@[r]@)
}

/// Some position of the resolved order holds the root file.
pub open spec fn closure_has_root(files: Seq<DialectFile>, order: Seq<usize>, root: Seq<u8>) -> bool {
    exists|k: int|
        0 <= k < order.len() && order[k] < files.len() && files[(#[trigger] order[k]) as int].path@
            == root
}


/// A nonempty chain of import links, head to tail.
pub open spec fn is_import_chain(files: Seq<DialectFile>, p: Seq<usize>) -> bool {
    &&& p.len() >= 1
    &&& forall|k: int| 0 <= k < p.len() ==> (#[trigger] p[k]) < files.len()
    &&& forall|k: int|
        0 <= k < p.len() - 1 ==> import_link(files, #[trigger] p[k] as int, p[k + 1] as int)
}

/// File `b` is `a` itself, or a file `a` transitively imports.
pub open spec fn reaches(files: Seq<DialectFile>, a: usize, b: usize) -> bool {
    exists|p: Seq<usize>| #[trigger] is_import_chain(files, p) && p[0] == a && p[p.len() - 1] == b
}

/// `b` belongs to the import closure of the file whose canonical path is
/// `root`.
pub open spec fn root_reaches(files: Seq<DialectFile>, root: Seq<u8>, b: usize) -> bool {
    exists|a: usize|
        a < files.len() && files[a as int].path@ == root && #[trigger] reaches(files, a, b)
}

/// Canonical paths are unique within the loaded set.
pub open spec fn paths_unique(files: Seq<DialectFile>) -> bool {
    forall|i1: int, i2: int|
        0 <= i1 < i2 < files.len() ==> (#[trigger] files[i1]).path@ != (#[trigger] files[i2]).path@
}

/// The import reference `path` of the member at position `k` resolves to an
/// earlier member.
pub open spec fn resolves_before(
    files: Seq<DialectFile>,
    order: Seq<usize>,
    k: int,
    path: Seq<u8>,
) -> bool {
    exists|j: int|
        0 <= j < k && (#[trigger] order[j]) < files.len() && files[order[j] as int].path@ == path
}

/// Every member's import references resolve to earlier members: the order
/// lists importees first and is closed under imports.
pub open spec fn closed_order(files: Seq<DialectFile>, order: Seq<usize>) -> bool {
    forall|k: int, rf: int|
        0 <= k < order.len() && order[k] < files.len() && 0 <= rf < files[order[k] as int].imports@.len()
            ==> resolves_before(
            files,
            order,
            k,
            (#[trigger] files[order[k] as int].imports@[rf])@,
        )
}

proof fn lemma_reaches_self(files: Seq<DialectFile>, a: usize)
    requires
        a < files.len(),
    ensures
        reaches(files, a, a),
{
    let p = seq![a];
    assert(is_import_chain(files, p));
    assert(p[0] == a && p[p.len() - 1] == a);
}

proof fn lemma_reaches_step(files: Seq<DialectFile>, a: usize, b: usize, c: usize)
    requires
        a < files.len(),
        import_link(files, a as int, b as int),
        reaches(files, b, c),
    ensures
        reaches(files, a, c),
{
    let p = choose|p: Seq<usize>|
        #[trigger] is_import_chain(files, p) && p[0] == b && p[p.len() - 1] == c;
    let p2 = seq![a] + p;
    assert(is_import_chain(files, p2)) by {
        assert forall|k: int| 0 <= k < p2.len() implies (#[trigger] p2[k]) < files.len() by {
            if k > 0 {
                assert(p2[k] == p[k - 1]);
            }
        }
        assert forall|k: int| 0 <= k < p2.len() - 1 implies import_link(
            files,
            #[trigger] p2[k] as int,
            p2[k + 1] as int,
        ) by {
            if k == 0 {
                assert(p2[0] == a && p2[1] == p[0]);
            } else {
                assert(p2[k] == p[k - 1] && p2[k + 1] == p[k]);
            }
        }
    }
    assert(p2[0] == a && p2[p2.len() - 1] == c);
}

/// A closed order that holds a chain's head holds its tail.
proof fn lemma_closed_contains_chain(files: Seq<DialectFile>, order: Seq<usize>, p: Seq<usize>)
    requires
        closed_order(files, order),
        paths_unique(files),
        is_import_chain(files, p),
        order.contains(p[0]),
    ensures
        order.contains(p[p.len() - 1]),
    decreases p.len(),
{
    if p.len() > 1 {
        let k = choose|k: int| 0 <= k < order.len() && order[k] == p[0];
        assert(import_link(files, p[0] as int, p[1] as int));
        let rf = choose|rf: int|
            0 <= rf < files[p[0] as int].imports@.len() && (#[trigger] files[p[0] as int].imports@[rf])@
                == files[p[1] as int].path@;
        assert(0 <= rf < files[order[k] as int].imports@.len());
        assert(resolves_before(files, order, k, (files[order[k] as int].imports@[rf])@));
        let j = choose|j: int|
            0 <= j < k && (#[trigger] order[j]) < files.len() && files[order[j] as int].path@
                == (files[order[k] as int].imports@[rf])@;
        assert(files[order[j] as int].path@ == files[p[1] as int].path@);
        assert(order[j] == p[1]) by {
            if order[j] != p[1] {
                let x = order[j] as int;
                let y = p[1] as int;
                if x < y {
                    assert(files[x].path@ != files[y].path@);
                } else {
                    assert(files[y].path@ != files[x].path@);
                }
            }
        }
        assert(order.contains(p[1]));
        let p2 = p.drop_first();
        assert(is_import_chain(files, p2)) by {
            assert forall|q: int| 0 <= q < p2.len() implies (#[trigger] p2[q]) < files.len() by {
                assert(p2[q] == p[q + 1]);
            }
            assert forall|q: int| 0 <= q < p2.len() - 1 implies import_link(
                files,
                #[trigger] p2[q] as int,
                p2[q + 1] as int,
            ) by {
                assert(p2[q] == p[q + 1] && p2[q + 1] == p[q + 2]);
            }
        }
        assert(p2[0] == p[1] && p2[p2.len() - 1] == p[p.len() - 1]);
        lemma_closed_contains_chain(files, order, p2);
    }
}

/// The position a member occupies in a duplicate-free order.
spec fn pos_of(order: Seq<usize>, x: usize) -> int {
    choose|j: int| 0 <= j < order.len() && order[j] == x
}

/// Walking a chain of members of a closed, duplicate-free order strictly
/// descends in position.
proof fn lemma_chain_positions(
    files: Seq<DialectFile>,
    order: Seq<usize>,
    p: Seq<usize>,
    i: int,
)
    requires
        closed_order(files, order),
        paths_unique(files),
        order.no_duplicates(),
        is_import_chain(files, p),
        forall|q: int| 0 <= q < p.len() ==> order.contains(#[trigger] p[q]),
        0 <= i < p.len(),
    ensures
        0 <= pos_of(order, p[i]) < order.len(),
        order[pos_of(order, p[i])] == p[i],
        pos_of(order, p[i]) <= pos_of(order, p[0]) - i,
    decreases i,
{
    assert(order.contains(p[i]));
    assert(0 <= pos_of(order, p[i]) < order.len() && order[pos_of(order, p[i])] == p[i]);
    if i > 0 {
        lemma_chain_positions(files, order, p, i - 1);
        let k = pos_of(order, p[i - 1]);
        assert(import_link(files, p[i - 1] as int, p[i] as int));
        let rf = choose|rf: int|
            0 <= rf < files[p[i - 1] as int].imports@.len() && (#[trigger] files[p[i
                - 1] as int].imports@[rf])@ == files[p[i] as int].path@;
        assert(0 <= rf < files[order[k] as int].imports@.len());
        assert(resolves_before(files, order, k, (files[order[k] as int].imports@[rf])@));
        let j = choose|j: int|
            0 <= j < k && (#[trigger] order[j]) < files.len() && files[order[j] as int].path@
                == (files[order[k] as int].imports@[rf])@;
        assert(order[j] == p[i]) by {
            if order[j] != p[i] {
                let x = order[j] as int;
                let y = p[i] as int;
                if x < y {
                    assert(files[x].path@ != files[y].path@);
                } else {
                    assert(files[y].path@ != files[x].path@);
                }
            }
        }
        assert(pos_of(order, p[i]) == j) by {
            let j2 = pos_of(order, p[i]);
            if j2 != j {
                if j2 < j {
                    assert(order[j2] != order[j]);
                } else {
                    assert(order[j] != order[j2]);
                }
            }
        }
    }
}

/// No member of a closed, duplicate-free order sits on an import cycle.
proof fn lemma_closed_no_member_cycle(files: Seq<DialectFile>, order: Seq<usize>, p: Seq<usize>)
    requires
        closed_order(files, order),
        paths_unique(files),
        order.no_duplicates(),
        is_import_cycle(files, p),
    ensures
        !order.contains(p[0]),
{
    if !order.contains(p[0]) {
        return ;
    }
    assert(is_import_chain(files, p));
    assert forall|q: int| 0 <= q < p.len() implies order.contains(#[trigger] p[q]) by {
        let pre = p.take(q + 1);
        assert(is_import_chain(files, pre)) by {
            assert forall|k: int| 0 <= k < pre.len() implies (#[trigger] pre[k])
                < files.len() by {
                assert(pre[k] == p[k]);
            }
            assert forall|k: int| 0 <= k < pre.len() - 1 implies import_link(
                files,
                #[trigger] pre[k] as int,
                pre[k + 1] as int,
            ) by {
                assert(pre[k] == p[k] && pre[k + 1] == p[k + 1]);
            }
        }
        assert(pre[0] == p[0] && pre[pre.len() - 1] == p[q]);
        lemma_closed_contains_chain(files, order, pre);
    }
    lemma_chain_positions(files, order, p, p.len() - 1);
    assert(pos_of(order, p[p.len() - 1]) <= pos_of(order, p[0]) - (p.len() - 1));
    assert(p[p.len() - 1] == p[0]);
    assert(false);
}

/// The index of the file with the given canonical path, if any.
fn find_file(files: &Vec<DialectFile>, path: &Vec<u8>) -> (o: Option<usize>)
    ensures
        match o {
            Option::Some(i) => i < files@.len() && files@[i as int].path@ == path@,
            Option::None => forall|b: int|
                0 <= b < files@.len() ==> (#[trigger] files@[b]).path@ != path@,
        },
{
    let mut i: usize = 0;
    while i < files.len()
        invariant
            i <= files@.len(),
            forall|b: int| 0 <= b < i ==> (#[trigger] files@[b]).path@ != path@,
        decreases files@.len() - i,
    {
        if bytes_eq(&files[i].path, path) {
            return Option::Some(i);
        }
        i = i + 1;
    }
    Option::None
}

fn vec_contains(v: &Vec<usize>, x: usize) -> (r: bool)
    ensures
        r == v@.contains(x),
{
    let mut i: usize = 0;
    while i < v.len()
        invariant
            i <= v@.len(),
            forall|q: int| 0 <= q < i ==> v@[q] != x,
        decreases v@.len() - i,
    {
        if v[i] == x {
            return true;
        }
        i = i + 1;
    }
    false
}

fn position_of(v: &Vec<usize>, x: usize) -> (o: Option<usize>)
    ensures
        match o {
            Option::Some(m) => m < v@.len() && v@[m as int] == x,
            Option::None => !v@.contains(x),
        },
{
    let mut i: usize = 0;
    while i < v.len()
        invariant
            i <= v@.len(),
            forall|q: int| 0 <= q < i ==> v@[q] != x,
        decreases v@.len() - i,
    {
        if v[i] == x {
            return Option::Some(i);
        }
        i = i + 1;
    }
    Option::None
}

/// A duplicate-free sequence of indices below `n` has at most `n` elements.
proof fn lemma_distinct_below(s: Seq<usize>, n: nat)
    requires
        s.no_duplicates(),
        forall|k: int| 0 <= k < s.len() ==> (#[trigger] s[k]) < n,
    ensures
        s.len() <= n,
    decreases n,
{
    if s.len() > 0 {
        if n == 0 {
            assert(s[0] < 0);
        } else {
            let m = (n - 1) as usize;
            if s.contains(m) {
                let i = choose|i: int| 0 <= i < s.len() && s[i] == m;
                let s2 = s.remove(i);
                assert(s2.len() == s.len() - 1);
                assert(s2.no_duplicates()) by {
                    assert forall|a: int, b: int| 0 <= a < b < s2.len() implies s2[a] != s2[b] by {
                        assert(s2[a] == if a < i { s[a] } else { s[a + 1] });
                        assert(s2[b] == if b < i { s[b] } else { s[b + 1] });
                    }
                }
                assert forall|k: int| 0 <= k < s2.len() implies (#[trigger] s2[k]) < n - 1 by {
                    assert(s2[k] == if k < i { s[k] } else { s[k + 1] });
                    if k < i {
                        assert(s[k] != m);
                    } else {
                        assert(s[k + 1] != m);
                    }
                }
                lemma_distinct_below(s2, (n - 1) as nat);
            } else {
                assert forall|k: int| 0 <= k < s.len() implies (#[trigger] s[k]) < n - 1 by {
                    assert(s[k] != m);
                }
                lemma_distinct_below(s, (n - 1) as nat);
            }
        }
    }
}

/// Depth-first import resolution with an explicit path stack: visits `idx`,
/// resolves its import references recursively, and appends `idx` to `out`
/// after everything it imports. A path already on the active stack is a
/// cycle; an unresolvable path is a missing import. Always terminates.
pub fn resolve_rec(
    files: &Vec<DialectFile>,
    idx: usize,
    stack: &mut Vec<usize>,
    out: &mut Vec<usize>,
) -> (r: Result<(), BuildError>)
    requires
        idx < files@.len(),
        old(stack)@.no_duplicates(),
        forall|k: int| 0 <= k < old(stack)@.len() ==> (#[trigger] old(stack)@[k]) < files@.len(),
        forall|k: int|
            0 <= k < old(stack)@.len() - 1 ==> import_link(
                files@,
                #[trigger] old(stack)@[k] as int,
                old(stack)@[k + 1] as int,
            ),
        old(stack)@.len() > 0 ==> import_link(
            files@,
            old(stack)@[old(stack)@.len() - 1] as int,
            idx as int,
        ),
        forall|k: int| 0 <= k < old(out)@.len() ==> (#[trigger] old(out)@[k]) < files@.len(),
        old(out)@.no_duplicates(),
        closed_order(files@, old(out)@),
        forall|x: usize| old(stack)@.contains(x) ==> !old(out)@.contains(x),
    ensures
        final(stack)@ == old(stack)@,
        old(out)@.is_prefix_of(final(out)@),
        forall|k: int| 0 <= k < final(out)@.len() ==> (#[trigger] final(out)@[k]) < files@.len(),
        final(out)@.no_duplicates(),
        closed_order(files@, final(out)@),
        forall|q: int|
            old(out)@.len() <= q < final(out)@.len() ==> reaches(
                files@,
                idx,
                #[trigger] final(out)@[q],
            ),
        forall|x: usize|
            old(stack)@.contains(x) ==> !(#[trigger] final(out)@.contains(x)),
        r is Ok ==> final(out)@.contains(idx),
        r is Err ==> (r->Err_0 == BuildError::MissingInclude && missing_import(files@)) || (
        r->Err_0 == BuildError::IncludeCycle && (exists|p: Seq<usize>|
            #[trigger] is_import_cycle(files@, p))),
    decreases files@.len() - old(stack)@.len(),
{
    if vec_contains(out, idx) {
        return Ok(());
    }
    let on_stack = position_of(stack, idx);
    match on_stack {
        Option::Some(m) => {
            proof {
                let p = stack@.subrange(m as int, stack@.len() as int).push(idx);
                assert(p[0] == stack@[m as int]);
                assert(p.len() >= 2);
                assert forall|k: int| 0 <= k < p.len() implies (#[trigger] p[k])
                    < files@.len() by {
                    if k < p.len() - 1 {
                        assert(p[k] == stack@[m + k]);
                    }
                }
                assert forall|k: int| 0 <= k < p.len() - 1 implies import_link(
                    files@,
                    #[trigger] p[k] as int,
                    p[k + 1] as int,
                ) by {
                    assert(p[k] == stack@[m + k]);
                    if k < p.len() - 2 {
                        assert(p[k + 1] == stack@[m + k + 1]);
                        assert(import_link(files@, stack@[m + k] as int, stack@[m + k + 1] as int));
                    } else {
                        assert(p[k + 1] == idx);
                        assert(m + k == stack@.len() - 1);
                        assert(import_link(
                            files@,
                            stack@[stack@.len() - 1] as int,
                            idx as int,
                        ));
                    }
                }
                assert(p[p.len() - 1] == idx && p[0] == stack@[m as int] && stack@[m as int] == idx);
                assert(is_import_cycle(files@, p));
            }
            return Err(BuildError::IncludeCycle);
        },
        Option::None => {},
    }
    stack.push(idx);
    let ghost stack1 = stack@;
    let mut rr: usize = 0;
    let imports_len = files[idx].imports.len();
    while rr < imports_len
        invariant
            idx < files@.len(),
            imports_len == files@[idx as int].imports@.len(),
            rr <= imports_len,
            stack@ == stack1,
            stack1 == old(stack)@.push(idx),
            stack@.no_duplicates(),
            forall|k: int| 0 <= k < stack@.len() ==> (#[trigger] stack@[k]) < files@.len(),
            forall|k: int|
                0 <= k < stack@.len() - 1 ==> import_link(
                    files@,
                    #[trigger] stack@[k] as int,
                    stack@[k + 1] as int,
                ),
            old(out)@.is_prefix_of(out@),
            forall|k: int| 0 <= k < out@.len() ==> (#[trigger] out@[k]) < files@.len(),
            out@.no_duplicates(),
            closed_order(files@, out@),
            forall|q: int|
                old(out)@.len() <= q < out@.len() ==> reaches(files@, idx, #[trigger] out@[q]),
            forall|x: usize| stack@.contains(x) ==> !(#[trigger] out@.contains(x)),
            forall|r2: int|
                #![trigger files@[idx as int].imports@[r2]]
                0 <= r2 < rr ==> (exists|j2: int|
                    0 <= j2 < out@.len() && (#[trigger] out@[j2]) < files@.len() && files@[out@[j2] as int].path@ == files@[idx as int].imports@[r2]@),
        decreases imports_len - rr,
    {
        let path = &files[idx].imports[rr];
        let found = find_file(files, path);
        match found {
            Option::Some(j) => {
                proof {
                    assert(files@[idx as int].imports@[rr as int]@ == files@[j as int].path@);
                    assert(import_link(files@, idx as int, j as int));
                    assert(stack@[stack@.len() - 1] == idx);
                }
                let ghost out_pre = out@;
                proof {
                    lemma_distinct_below(stack@, files@.len());
                    assert forall|x: usize| stack@.contains(x) implies !out_pre.contains(x) by {}
                }
                let sub = resolve_rec(files, j, stack, out);
                proof {
                    assert(out_pre.is_prefix_of(out@));
                    assert(old(out)@.is_prefix_of(out@));
                    // elements the recursive call added are reachable from idx
                    assert forall|q: int|
                        old(out)@.len() <= q < out@.len() implies reaches(
                        files@,
                        idx,
                        #[trigger] out@[q],
                    ) by {
                        if q < out_pre.len() {
                            assert(out@[q] == out_pre[q]);
                        } else {
                            assert(reaches(files@, j, out@[q]));
                            lemma_reaches_step(files@, idx, j, out@[q]);
                        }
                    }
                    // the witness positions of already-resolved imports survive
                    assert forall|r2: int|
                        #![trigger files@[idx as int].imports@[r2]]
                        0 <= r2 < rr implies (exists|j2: int|
                        0 <= j2 < out@.len() && (#[trigger] out@[j2]) < files@.len() && files@[out@[j2] as int].path@ == files@[idx as int].imports@[r2]@) by {
                        let j2 = choose|j2: int|
                            0 <= j2 < out_pre.len() && (#[trigger] out_pre[j2]) < files@.len()
                                && files@[out_pre[j2] as int].path@ == files@[idx as int].imports@[r2]@;
                        assert(out@[j2] == out_pre[j2]);
                    }
                }
                match sub {
                    Ok(u) => {
                        proof {
                            // the current import reference now resolves within out
                            assert(out@.contains(j));
                            let j2 = choose|j2: int| 0 <= j2 < out@.len() && out@[j2] == j;
                            assert(out@[j2] < files@.len() && files@[out@[j2] as int].path@
                                == files@[idx as int].imports@[rr as int]@);
                        }
                    },
                    Err(er) => {
                        let popped = stack.pop();
                        proof {
                            assert(stack@ =~= old(stack)@);
                        }
                        return Err(er);
                    },
                }
            },
            Option::None => {
                proof {
                    assert(missing_import(files@)) by {
                        assert(0 <= rr < files@[idx as int].imports@.len());
                        assert(forall|b: int|
                            0 <= b < files@.len() ==> (#[trigger] files@[b]).path@ != files@[
                                idx as int].imports@[rr as int]@);
                    }
                }
                let popped = stack.pop();
                proof {
                    assert(stack@ =~= old(stack)@);
                }
                return Err(BuildError::MissingInclude);
            },
        }
        rr = rr + 1;
    }
    let popped = stack.pop();
    proof {
        assert(stack@ =~= old(stack)@);
    }
    let ghost out_pre = out@;
    out.push(idx);
    proof {
        assert(out@[out@.len() - 1] == idx);
        assert(out@.drop_last() =~= out_pre);
        assert(out@.drop_last().is_prefix_of(out@));
        assert(!out_pre.contains(idx)) by {
            assert(stack1.contains(idx)) by {
                assert(stack1[stack1.len() - 1] == idx);
            }
        }
        assert(out@.no_duplicates()) by {
            assert forall|a: int, b: int| 0 <= a < b < out@.len() implies out@[a] != out@[b] by {
                if b == out@.len() - 1 {
                    assert(out@[a] == out_pre[a]);
                    if out@[a] == idx {
                        assert(out_pre.contains(idx));
                    }
                }
            }
        }
        assert(closed_order(files@, out@)) by {
            assert forall|k: int, rf: int|
                0 <= k < out@.len() && out@[k] < files@.len() && 0 <= rf < files@[out@[k] as int].imports@.len() implies resolves_before(
                files@,
                out@,
                k,
                (#[trigger] files@[out@[k] as int].imports@[rf])@,
            ) by {
                if k < out@.len() - 1 {
                    assert(out@[k] == out_pre[k]);
                    assert(resolves_before(
                        files@,
                        out_pre,
                        k,
                        (files@[out_pre[k] as int].imports@[rf])@,
                    ));
                    let j2 = choose|j2: int|
                        0 <= j2 < k && (#[trigger] out_pre[j2]) < files@.len() && files@[out_pre[j2] as int].path@ == (files@[out_pre[k] as int].imports@[rf])@;
                    assert(out@[j2] == out_pre[j2]);
                } else {
                    assert(out@[k] == idx);
                    let j2 = choose|j2: int|
                        0 <= j2 < out_pre.len() && (#[trigger] out_pre[j2]) < files@.len()
                            && files@[out_pre[j2] as int].path@ == files@[idx as int].imports@[rf]@;
                    assert(out@[j2] == out_pre[j2]);
                }
            }
        }
        assert forall|q: int|
            old(out)@.len() <= q < out@.len() implies reaches(files@, idx, #[trigger] out@[q]) by {
            if q < out_pre.len() {
                assert(out@[q] == out_pre[q]);
            } else {
                assert(out@[q] == idx);
                lemma_reaches_self(files@, idx);
            }
        }
        assert forall|x: usize| old(stack)@.contains(x) implies !out@.contains(x) by {
            assert(stack1.contains(x)) by {
                let kx = choose|kx: int| 0 <= kx < old(stack)@.len() && old(stack)@[kx] == x;
                assert(stack1[kx] == x);
            }
            if out@.contains(x) {
                let q = choose|q: int| 0 <= q < out@.len() && out@[q] == x;
                if q < out_pre.len() {
                    assert(out_pre.contains(x));
                } else {
                    assert(x == idx);
                    assert(!stack1.no_duplicates() || !old(stack)@.contains(idx));
                    assert(old(stack)@.contains(idx));
                    let kz = choose|kz: int| 0 <= kz < old(stack)@.len() && old(stack)@[kz] == idx;
                    assert(stack1[kz] == idx && stack1[stack1.len() - 1] == idx);
                }
            }
        }
    }
    Ok(())
}

/// Resolves a root dialect file's import closure: exactly the files the
/// root transitively imports (itself among them), each once, importees
/// before importers. Fails with `MissingInclude` when the root or a
/// referenced path is absent, and with `IncludeCycle` when the import
/// references form a cycle; on success no member sits on a cycle.
pub fn resolve_closure(files: &Vec<DialectFile>, root_path: &Vec<u8>) -> (r: Result<
    Vec<usize>,
    BuildError,
>)
    requires
        paths_unique(files@),
    ensures
        r is Ok ==> closure_has_root(files@, r->Ok_0@, root_path@),
        r is Ok ==> (forall|k: int|
            0 <= k < r->Ok_0@.len() ==> (#[trigger] r->Ok_0@[k]) < files@.len()),
        r is Ok ==> r->Ok_0@.no_duplicates(),
        r is Ok ==> closed_order(files@, r->Ok_0@),
        r is Ok ==> (forall|q: int|
            0 <= q < r->Ok_0@.len() ==> root_reaches(
                files@,
                root_path@,
                #[trigger] r->Ok_0@[q],
            )),
        r is Ok ==> (forall|b: usize|
            #[trigger] root_reaches(files@, root_path@, b) ==> r->Ok_0@.contains(b)),
        r is Ok ==> (forall|p: Seq<usize>|
            #[trigger] is_import_cycle(files@, p) ==> !r->Ok_0@.contains(p[0])),
        r is Err ==> ((r->Err_0 == BuildError::MissingInclude && ((forall|b: int|
            0 <= b < files@.len() ==> (#[trigger] files@[b]).path@ != root_path@)
            || missing_import(files@))) || (r->Err_0 == BuildError::IncludeCycle && (exists|
            p: Seq<usize>,
        | #[trigger] is_import_cycle(files@, p)))),
{
    let root = find_file(files, root_path);
    match root {
        Option::None => Err(BuildError::MissingInclude),
        Option::Some(ri) => {
            let mut stack: Vec<usize> = Vec::new();
            let mut out: Vec<usize> = Vec::new();
            let res = resolve_rec(files, ri, &mut stack, &mut out);
            match res {
                Ok(u) => {
                    proof {
                        assert(out@.contains(ri));
                        let k = choose|k: int| 0 <= k < out@.len() && out@[k] == ri;
                        assert(out@[k] == ri);
                        assert(files@[out@[k] as int].path@ == root_path@);
                        assert(closure_has_root(files@, out@, root_path@));
                        // every member is reachable from the root file
                        assert forall|q: int| 0 <= q < out@.len() implies root_reaches(
                            files@,
                            root_path@,
                            #[trigger] out@[q],
                        ) by {
                            assert(reaches(files@, ri, out@[q]));
                        }
                        // every file reachable from the root is a member
                        assert forall|b: usize|
                            #[trigger] root_reaches(files@, root_path@, b) implies out@.contains(
                            b,
                        ) by {
                            let a = choose|a: usize|
                                a < files@.len() && files@[a as int].path@ == root_path@
                                    && #[trigger] reaches(files@, a, b);
                            assert(a == ri) by {
                                if a != ri {
                                    let x = a as int;
                                    let y = ri as int;
                                    if x < y {
                                        assert(files@[x].path@ != files@[y].path@);
                                    } else {
                                        assert(files@[y].path@ != files@[x].path@);
                                    }
                                }
                            }
                            let p = choose|p: Seq<usize>|
                                #[trigger] is_import_chain(files@, p) && p[0] == ri && p[p.len()
                                    - 1] == b;
                            lemma_closed_contains_chain(files@, out@, p);
                        }
                        // and no member sits on an import cycle
                        assert forall|p: Seq<usize>|
                            #[trigger] is_import_cycle(files@, p) implies !out@.contains(
                            p[0],
                        ) by {
                            lemma_closed_no_member_cycle(files@, out@, p);
                        }
                    }
                    Ok(out)
                },
                Err(e) => Err(e),
            }
        },
    }
}



/// The entry stands in an enum of some file of the root's import closure.
pub open spec fn closure_entry_in(
    files: Seq<DialectFile>,
    root: Seq<u8>,
    en: Seq<u8>,
    n: Seq<u8>,
    v: u64,
) -> bool {
    exists|b: usize|
        root_reaches(files, root, b) && #[trigger] enum_entry_in(files[b as int].enums@, en, n, v)
}

/// Some file of the root's import closure defines an enum named `en`.
pub open spec fn closure_has_enum(files: Seq<DialectFile>, root: Seq<u8>, en: Seq<u8>) -> bool {
    exists|b: usize|
        root_reaches(files, root, b) && #[trigger] has_enum(files[b as int].enums@, en)
}

/// Some message of the collection has the same content as `m`.
pub open spec fn set_has_msg_like(ms: Seq<MessageModel>, m: MessageModel) -> bool {
    exists|i: int| 0 <= i < ms.len() && msg_like(#[trigger] ms[i], m)
}

/// `m` has the same content as a message of the root's import closure.
pub open spec fn closure_has_msg_like(
    files: Seq<DialectFile>,
    root: Seq<u8>,
    m: MessageModel,
) -> bool {
    exists|b: usize, j: int|
        #![trigger files[b as int].messages@[j]]
        root_reaches(files, root, b) && 0 <= j < files[b as int].messages@.len() && msg_like(
            m,
            files[b as int].messages@[j],
        )
}

/// The flattening invariant for enums: after the first `k` closure members,
/// the accumulated collection holds exactly their entries and enum names.
pub open spec fn enums_fold_inv(
    files: Seq<DialectFile>,
    order: Seq<usize>,
    k: int,
    es: Seq<EnumModel>,
) -> bool {
    &&& forall|en: Seq<u8>, n: Seq<u8>, v: u64|
        #[trigger] enum_entry_in(es, en, n, v) <==> (exists|kk: int|
            0 <= kk < k && #[trigger] enum_entry_in(files[order[kk] as int].enums@, en, n, v))
    &&& forall|en: Seq<u8>|
        #[trigger] has_enum(es, en) <==> (exists|kk: int|
            0 <= kk < k && #[trigger] has_enum(files[order[kk] as int].enums@, en))
}

/// `m` has the content of a message of one of the first `k` members.
pub open spec fn from_member(
    files: Seq<DialectFile>,
    order: Seq<usize>,
    k: int,
    m: MessageModel,
) -> bool {
    exists|kk: int, j: int|
        #![trigger files[order[kk] as int].messages@[j]]
        0 <= kk < k && 0 <= j < files[order[kk] as int].messages@.len() && msg_like(
            m,
            files[order[kk] as int].messages@[j],
        )
}

/// The flattening invariant for messages: after the first `k` closure
/// members, the accumulated collection holds a copy of each of their
/// messages and nothing else.
pub open spec fn msgs_fold_inv(
    files: Seq<DialectFile>,
    order: Seq<usize>,
    k: int,
    ms: Seq<MessageModel>,
) -> bool {
    &&& forall|kk: int, j: int|
        #![trigger files[order[kk] as int].messages@[j]]
        0 <= kk < k && 0 <= j < files[order[kk] as int].messages@.len() ==> set_has_msg_like(
            ms,
            files[order[kk] as int].messages@[j],
        )
    &&& forall|i: int|
        #![trigger ms[i]]
        0 <= i < ms.len() ==> from_member(files, order, k, ms[i])
}

proof fn lemma_fold_inv_base(files: Seq<DialectFile>, order: Seq<usize>)
    ensures
        enums_fold_inv(files, order, 0, Seq::<EnumModel>::empty()),
        msgs_fold_inv(files, order, 0, Seq::<MessageModel>::empty()),
{
}

/// Merging one more member's enums extends the flattening invariant.
proof fn lemma_enums_fold_step(
    files: Seq<DialectFile>,
    order: Seq<usize>,
    k: int,
    pre: Seq<EnumModel>,
    cur: Seq<EnumModel>,
)
    requires
        0 <= k < order.len(),
        enums_fold_inv(files, order, k, pre),
        forall|en: Seq<u8>, n: Seq<u8>, v: u64|
            #[trigger] enum_entry_in(cur, en, n, v) <==> (enum_entry_in(pre, en, n, v)
                || enum_entry_in(files[order[k] as int].enums@, en, n, v)),
        forall|en: Seq<u8>|
            #[trigger] has_enum(cur, en) <==> (has_enum(pre, en) || has_enum(
                files[order[k] as int].enums@,
                en,
            )),
    ensures
        enums_fold_inv(files, order, k + 1, cur),
{
    assert forall|en: Seq<u8>, n: Seq<u8>, v: u64|
        #[trigger] enum_entry_in(cur, en, n, v) <==> (exists|kk: int|
        0 <= kk < k + 1 && #[trigger] enum_entry_in(
            files[order[kk] as int].enums@,
            en,
            n,
            v,
        )) by {
        if enum_entry_in(cur, en, n, v) {
            if enum_entry_in(pre, en, n, v) {
                let kk = choose|kk: int|
                    0 <= kk < k && #[trigger] enum_entry_in(
                        files[order[kk] as int].enums@,
                        en,
                        n,
                        v,
                    );
                assert(0 <= kk < k + 1);
            } else {
                assert(enum_entry_in(files[order[k] as int].enums@, en, n, v));
            }
        }
        if exists|kk: int|
            0 <= kk < k + 1 && #[trigger] enum_entry_in(files[order[kk] as int].enums@, en, n, v) {
            let kk = choose|kk: int|
                0 <= kk < k + 1 && #[trigger] enum_entry_in(
                    files[order[kk] as int].enums@,
                    en,
                    n,
                    v,
                );
            if kk < k {
                assert(enum_entry_in(pre, en, n, v));
            }
            assert(enum_entry_in(cur, en, n, v));
        }
    }
    assert forall|en: Seq<u8>| #[trigger] has_enum(cur, en) <==> (exists|kk: int|
        0 <= kk < k + 1 && #[trigger] has_enum(files[order[kk] as int].enums@, en)) by {
        if has_enum(cur, en) {
            if has_enum(pre, en) {
                let kk = choose|kk: int|
                    0 <= kk < k && #[trigger] has_enum(files[order[kk] as int].enums@, en);
                assert(0 <= kk < k + 1);
            } else {
                assert(has_enum(files[order[k] as int].enums@, en));
            }
        }
        if exists|kk: int|
            0 <= kk < k + 1 && #[trigger] has_enum(files[order[kk] as int].enums@, en) {
            let kk = choose|kk: int|
                0 <= kk < k + 1 && #[trigger] has_enum(files[order[kk] as int].enums@, en);
            if kk < k {
                assert(has_enum(pre, en));
            }
            assert(has_enum(cur, en));
        }
    }
}

/// Appending copies of one more member's messages extends the invariant.
#[verifier::rlimit(60)]
proof fn lemma_msgs_fold_step(
    files: Seq<DialectFile>,
    order: Seq<usize>,
    k: int,
    pre: Seq<MessageModel>,
    cur: Seq<MessageModel>,
)
    requires
        0 <= k < order.len(),
        msgs_fold_inv(files, order, k, pre),
        cur.len() == pre.len() + files[order[k] as int].messages@.len(),
        forall|i: int| 0 <= i < pre.len() ==> cur[i] == pre[i],
        forall|j: int|
            0 <= j < files[order[k] as int].messages@.len() ==> msg_like(
                #[trigger] cur[pre.len() + j],
                files[order[k] as int].messages@[j],
            ),
    ensures
        msgs_fold_inv(files, order, k + 1, cur),
{
    assert forall|kk: int, j: int|
        #![trigger files[order[kk] as int].messages@[j]]
        0 <= kk < k + 1 && 0 <= j < files[order[kk] as int].messages@.len() implies set_has_msg_like(
        cur,
        files[order[kk] as int].messages@[j],
    ) by {
        if kk < k {
            assert(set_has_msg_like(pre, files[order[kk] as int].messages@[j]));
            let i = choose|i: int|
                0 <= i < pre.len() && msg_like(
                    #[trigger] pre[i],
                    files[order[kk] as int].messages@[j],
                );
            assert(cur[i] == pre[i]);
            assert(msg_like(cur[i], files[order[kk] as int].messages@[j]));
        } else {
            assert(msg_like(cur[pre.len() + j], files[order[k] as int].messages@[j]));
        }
    }
    assert forall|i: int| #![trigger cur[i]] 0 <= i < cur.len() implies from_member(
        files,
        order,
        k + 1,
        cur[i],
    ) by {
        if i < pre.len() {
            assert(cur[i] == pre[i]);
            assert(from_member(files, order, k, pre[i]));
            let (kk, j) = choose|kk: int, j: int|
                #![trigger files[order[kk] as int].messages@[j]]
                0 <= kk < k && 0 <= j < files[order[kk] as int].messages@.len() && msg_like(
                    pre[i],
                    files[order[kk] as int].messages@[j],
                );
            assert(msg_like(cur[i], files[order[kk] as int].messages@[j]));
        } else {
            let j = i - pre.len();
            assert(msg_like(cur[pre.len() + j], files[order[k] as int].messages@[j]));
            assert(0 <= k < k + 1 && 0 <= j < files[order[k] as int].messages@.len()
                && msg_like(cur[i], files[order[k] as int].messages@[j]));
        }
    }
}

/// A conflict found while merging one member lifts to a closure conflict.
proof fn lemma_lift_enum_conflict(
    files: Seq<DialectFile>,
    root: Seq<u8>,
    order: Seq<usize>,
    k: int,
    pre: Seq<EnumModel>,
)
    requires
        0 <= k < order.len(),
        enums_fold_inv(files, order, k, pre),
        enums_conflict(pre, files[order[k] as int].enums@),
        forall|q: int|
            0 <= q < order.len() ==> root_reaches(files, root, #[trigger] order[q]),
    ensures
        exists|en: Seq<u8>, n: Seq<u8>, v1: u64, v2: u64|
            v1 != v2 && #[trigger] closure_entry_in(files, root, en, n, v1)
                && #[trigger] closure_entry_in(files, root, en, n, v2),
{
    let add = files[order[k] as int].enums@;
    let (en, n, v1, v2) = choose|en: Seq<u8>, n: Seq<u8>, v1: u64, v2: u64|
        v1 != v2 && (#[trigger] enum_entry_in(pre, en, n, v1) || enum_entry_in(add, en, n, v1)) && (
        #[trigger] enum_entry_in(pre, en, n, v2) || enum_entry_in(add, en, n, v2));
    assert(closure_entry_in(files, root, en, n, v1)) by {
        if enum_entry_in(pre, en, n, v1) {
            let kk = choose|kk: int|
                0 <= kk < k && #[trigger] enum_entry_in(files[order[kk] as int].enums@, en, n, v1);
            assert(root_reaches(files, root, order[kk]));
        } else {
            assert(root_reaches(files, root, order[k]));
        }
    }
    assert(closure_entry_in(files, root, en, n, v2)) by {
        if enum_entry_in(pre, en, n, v2) {
            let kk = choose|kk: int|
                0 <= kk < k && #[trigger] enum_entry_in(files[order[kk] as int].enums@, en, n, v2);
            assert(root_reaches(files, root, order[kk]));
        } else {
            assert(root_reaches(files, root, order[k]));
        }
    }
}

/// A repeated message id found while merging one member lifts to two
/// distinct closure files sharing an id.
#[verifier::rlimit(60)]
proof fn lemma_lift_msg_conflict(
    files: Seq<DialectFile>,
    root: Seq<u8>,
    order: Seq<usize>,
    k: int,
    pre: Seq<MessageModel>,
)
    requires
        0 <= k < order.len(),
        msgs_fold_inv(files, order, k, pre),
        exists|i: int, j: int|
            0 <= i < pre.len() && 0 <= j < files[order[k] as int].messages@.len() && (
            #[trigger] pre[i]).id == (#[trigger] files[order[k] as int].messages@[j]).id,
        forall|q: int|
            0 <= q < order.len() ==> root_reaches(files, root, #[trigger] order[q]),
        order.no_duplicates(),
    ensures
        exists|b1: usize, b2: usize, j1: int, j2: int|
            #![trigger files[b1 as int].messages@[j1], files[b2 as int].messages@[j2]]
            b1 != b2 && root_reaches(files, root, b1) && root_reaches(files, root, b2) && 0 <= j1
                < files[b1 as int].messages@.len() && 0 <= j2 < files[b2 as int].messages@.len()
                && files[b1 as int].messages@[j1].id == files[b2 as int].messages@[j2].id,
{
    let (i, j) = choose|i: int, j: int|
        0 <= i < pre.len() && 0 <= j < files[order[k] as int].messages@.len() && (
        #[trigger] pre[i]).id == (#[trigger] files[order[k] as int].messages@[j]).id;
    assert(from_member(files, order, k, pre[i]));
    let (kk, j1) = choose|kk: int, j1: int|
        #![trigger files[order[kk] as int].messages@[j1]]
        0 <= kk < k && 0 <= j1 < files[order[kk] as int].messages@.len() && msg_like(
            pre[i],
            files[order[kk] as int].messages@[j1],
        );
    let b1 = order[kk];
    let b2 = order[k];
    assert(b1 != b2);
    assert(files[b1 as int].messages@[j1].id == files[b2 as int].messages@[j].id);
    assert(root_reaches(files, root, b1) && root_reaches(files, root, b2));
}

/// A completed fold over a complete closure order holds exactly the
/// closure's definitions.
proof fn lemma_fold_closure(
    files: Seq<DialectFile>,
    root: Seq<u8>,
    order: Seq<usize>,
    es: Seq<EnumModel>,
    ms: Seq<MessageModel>,
)
    requires
        enums_fold_inv(files, order, order.len() as int, es),
        msgs_fold_inv(files, order, order.len() as int, ms),
        forall|q: int|
            0 <= q < order.len() ==> root_reaches(files, root, #[trigger] order[q]),
        forall|b: usize| #[trigger] root_reaches(files, root, b) ==> order.contains(b),
    ensures
        forall|en: Seq<u8>, n: Seq<u8>, v: u64|
            #[trigger] enum_entry_in(es, en, n, v) <==> closure_entry_in(files, root, en, n, v),
        forall|en: Seq<u8>|
            #[trigger] has_enum(es, en) <==> closure_has_enum(files, root, en),
        forall|b: usize, j: int|
            #![trigger files[b as int].messages@[j]]
            root_reaches(files, root, b) && 0 <= j < files[b as int].messages@.len()
                ==> set_has_msg_like(ms, files[b as int].messages@[j]),
        forall|i: int|
            0 <= i < ms.len() ==> closure_has_msg_like(files, root, #[trigger] ms[i]),
{
    let kmax = order.len() as int;
    assert forall|en: Seq<u8>, n: Seq<u8>, v: u64|
        #[trigger] enum_entry_in(es, en, n, v) <==> closure_entry_in(files, root, en, n, v) by {
        if enum_entry_in(es, en, n, v) {
            let kk = choose|kk: int|
                0 <= kk < kmax && #[trigger] enum_entry_in(
                    files[order[kk] as int].enums@,
                    en,
                    n,
                    v,
                );
            assert(root_reaches(files, root, order[kk]));
        }
        if closure_entry_in(files, root, en, n, v) {
            let b = choose|b: usize|
                root_reaches(files, root, b) && #[trigger] enum_entry_in(
                    files[b as int].enums@,
                    en,
                    n,
                    v,
                );
            assert(order.contains(b));
            let q = choose|q: int| 0 <= q < order.len() && order[q] == b;
            assert(enum_entry_in(files[order[q] as int].enums@, en, n, v));
            assert(enum_entry_in(es, en, n, v));
        }
    }
    assert forall|en: Seq<u8>| #[trigger] has_enum(es, en) <==> closure_has_enum(
        files,
        root,
        en,
    ) by {
        if has_enum(es, en) {
            let kk = choose|kk: int|
                0 <= kk < kmax && #[trigger] has_enum(files[order[kk] as int].enums@, en);
            assert(root_reaches(files, root, order[kk]));
        }
        if closure_has_enum(files, root, en) {
            let b = choose|b: usize|
                root_reaches(files, root, b) && #[trigger] has_enum(files[b as int].enums@, en);
            assert(order.contains(b));
            let q = choose|q: int| 0 <= q < order.len() && order[q] == b;
            assert(has_enum(files[order[q] as int].enums@, en));
            assert(has_enum(es, en));
        }
    }
    assert forall|b: usize, j: int|
        #![trigger files[b as int].messages@[j]]
        root_reaches(files, root, b) && 0 <= j < files[b as int].messages@.len()
            implies set_has_msg_like(ms, files[b as int].messages@[j]) by {
        assert(order.contains(b));
        let q = choose|q: int| 0 <= q < order.len() && order[q] == b;
        assert(set_has_msg_like(ms, files[order[q] as int].messages@[j]));
    }
    assert forall|i: int| 0 <= i < ms.len() implies closure_has_msg_like(
        files,
        root,
        #[trigger] ms[i],
    ) by {
        assert(from_member(files, order, kmax, ms[i]));
        let (kk, j) = choose|kk: int, j: int|
            #![trigger files[order[kk] as int].messages@[j]]
            0 <= kk < kmax && 0 <= j < files[order[kk] as int].messages@.len() && msg_like(
                ms[i],
                files[order[kk] as int].messages@[j],
            );
        assert(root_reaches(files, root, order[kk]));
        assert(msg_like(ms[i], files[order[kk] as int].messages@[j]));
    }
}

/// Builds the validated semantic model of one dialect: resolves the root's
/// import closure, flattens it — importees first, same-named enums by union
/// of entries, messages collected under unique ids — and validates every
/// field. On success the set holds exactly the closure's enum entries and
/// messages; its tag is the root path and its version the root's.
pub fn build(files: &Vec<DialectFile>, root_path: &Vec<u8>) -> (r: Result<MessageSet, BuildError>)
    requires
        paths_unique(files@),
        forall|i: int|
            0 <= i < files@.len() ==> wf_enums((#[trigger] files@[i]).enums@) && msg_ids_unique(
                files@[i].messages@,
            ),
    ensures
        r is Ok ==> wf_enums(r->Ok_0.enums@) && msg_ids_unique(r->Ok_0.messages@) && (forall|
            i: int,
        |
            0 <= i < r->Ok_0.messages@.len() ==> wf_fields(
                (#[trigger] r->Ok_0.messages@[i]).fields@,
            ) && refs_resolved(r->Ok_0.enums@, r->Ok_0.messages@[i].fields@)),
        r is Ok ==> r->Ok_0.name@ == root_path@,
        r is Ok ==> (forall|a: int|
            0 <= a < files@.len() && (#[trigger] files@[a]).path@ == root_path@ ==> r->Ok_0.version
                == files@[a].version),
        r is Ok ==> (forall|en: Seq<u8>, n: Seq<u8>, v: u64|
            #[trigger] enum_entry_in(r->Ok_0.enums@, en, n, v) <==> closure_entry_in(
                files@,
                root_path@,
                en,
                n,
                v,
            )),
        r is Ok ==> (forall|en: Seq<u8>|
            #[trigger] has_enum(r->Ok_0.enums@, en) <==> closure_has_enum(
                files@,
                root_path@,
                en,
            )),
        r is Ok ==> (forall|b: usize, j: int|
            #![trigger files@[b as int].messages@[j]]
            root_reaches(files@, root_path@, b) && 0 <= j < files@[b as int].messages@.len()
                ==> set_has_msg_like(r->Ok_0.messages@, files@[b as int].messages@[j])),
        r is Ok ==> (forall|i: int|
            0 <= i < r->Ok_0.messages@.len() ==> closure_has_msg_like(
                files@,
                root_path@,
                #[trigger] r->Ok_0.messages@[i],
            )),
        r is Ok ==> (exists|a: int|
            0 <= a < files@.len() && (#[trigger] files@[a]).path@ == root_path@),
        r is Ok ==> (forall|p: Seq<usize>|
            #[trigger] is_import_cycle(files@, p) ==> !root_reaches(
                files@,
                root_path@,
                p[0],
            )),
        r is Err && r->Err_0 == BuildError::DuplicateEnumEntry ==> (exists|
            en: Seq<u8>,
            n: Seq<u8>,
            v1: u64,
            v2: u64,
        |
            v1 != v2 && #[trigger] closure_entry_in(files@, root_path@, en, n, v1)
                && #[trigger] closure_entry_in(files@, root_path@, en, n, v2)),
        r is Err && r->Err_0 == BuildError::DuplicateMessageId ==> (exists|
            b1: usize,
            b2: usize,
            j1: int,
            j2: int,
        |
            #![trigger files@[b1 as int].messages@[j1], files@[b2 as int].messages@[j2]]
            b1 != b2 && root_reaches(files@, root_path@, b1) && root_reaches(
                files@,
                root_path@,
                b2,
            ) && 0 <= j1 < files@[b1 as int].messages@.len() && 0 <= j2 < files@[
                b2 as int].messages@.len() && files@[b1 as int].messages@[j1].id == files@[
                b2 as int].messages@[j2].id),
        r is Err && r->Err_0 == BuildError::IncludeCycle ==> (exists|p: Seq<usize>|
            #[trigger] is_import_cycle(files@, p)),
        r is Err && r->Err_0 == BuildError::MissingInclude ==> ((forall|b: int|
            0 <= b < files@.len() ==> (#[trigger] files@[b]).path@ != root_path@)
            || missing_import(files@)),
{
    let ri = match find_file(files, root_path) {
        Option::Some(i) => i,
        Option::None => {
            return Err(BuildError::MissingInclude);
        },
    };
    let order = match resolve_closure(files, root_path) {
        Ok(o) => o,
        Err(e) => {
            return Err(e);
        },
    };
    let mut enums: Vec<EnumModel> = Vec::new();
    let mut msgs: Vec<MessageModel> = Vec::new();
    let mut k: usize = 0;
    proof {
        lemma_fold_inv_base(files@, order@);
        assert(enums@ =~= Seq::<EnumModel>::empty());
        assert(msgs@ =~= Seq::<MessageModel>::empty());
    }
    while k < order.len()
        invariant
            forall|i: int|
                0 <= i < files@.len() ==> wf_enums((#[trigger] files@[i]).enums@)
                    && msg_ids_unique(files@[i].messages@),
            forall|q: int| 0 <= q < order@.len() ==> (#[trigger] order@[q]) < files@.len(),
            forall|q: int|
                0 <= q < order@.len() ==> root_reaches(
                    files@,
                    root_path@,
                    #[trigger] order@[q],
                ),
            order@.no_duplicates(),
            k <= order@.len(),
            wf_enums(enums@),
            msg_ids_unique(msgs@),
            enums_fold_inv(files@, order@, k as int, enums@),
            msgs_fold_inv(files@, order@, k as int, msgs@),
        decreases order@.len() - k,
    {
        let f = &files[order[k]];
        let ghost pre_enums = enums@;
        let ghost pre_msgs = msgs@;
        match merge_enum_lists(&mut enums, &f.enums) {
            Ok(u) => {
                proof {
                    lemma_enums_fold_step(files@, order@, k as int, pre_enums, enums@);
                }
            },
            Err(e) => {
                proof {
                    lemma_lift_enum_conflict(files@, root_path@, order@, k as int, pre_enums);
                }
                return Err(e);
            },
        }
        match merge_message_lists(&mut msgs, &f.messages) {
            Ok(u) => {
                proof {
                    lemma_msgs_fold_step(files@, order@, k as int, pre_msgs, msgs@);
                }
            },
            Err(e) => {
                proof {
                    lemma_lift_msg_conflict(files@, root_path@, order@, k as int, pre_msgs);
                }
                return Err(e);
            },
        }
        k = k + 1;
    }
    match validate_set(&enums, &msgs) {
        Ok(u) => {},
        Err(e) => {
            return Err(e);
        },
    }
    proof {
        lemma_fold_closure(files@, root_path@, order@, enums@, msgs@);
        assert forall|a: int|
            0 <= a < files@.len() && (#[trigger] files@[a]).path@ == root_path@ implies files@[
            ri as int].version == files@[a].version by {
            if a != ri {
                let x = a;
                let y = ri as int;
                if x < y {
                    assert(files@[x].path@ != files@[y].path@);
                } else {
                    assert(files@[y].path@ != files@[x].path@);
                }
            }
        }
        assert forall|p: Seq<usize>| #[trigger] is_import_cycle(files@, p) implies !root_reaches(
            files@,
            root_path@,
            p[0],
        ) by {
            if root_reaches(files@, root_path@, p[0]) {
                assert(order@.contains(p[0]));
            }
        }
    }
    Ok(MessageSet {
        name: copy_bytes(root_path),
        version: files[ri].version,
        enums,
        messages: msgs,
    })
}

} // verus!
