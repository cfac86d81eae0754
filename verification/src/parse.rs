//! The definition-file loader: parses one dialect description file into a
//! `DialectFile`, and checks it before the model builder consumes it.
//!
//! The schema is line-oriented ASCII; tokens are separated by single spaces,
//! lines by `\n`, and the first token tags the line:
//!
//! ```text
//! d <version>                      the dialect header (exactly once, first)
//! i <path>                         an import reference
//! e <name> [b]                     an enum; `b` marks a bitmask
//! v <name> <value> [description]   an entry of the open enum
//! m <id> <name>                    a message
//! f <type> <name> [<enum>|-] [units]   a field; type is `uint8_t`,
//!                                  `float`, `char[16]`, ...
//! x                                the extension marker: later fields of
//!                                  the open message are extensions
//! .                                closes the open enum or message
//! ```
//!
//! Structural deviations fail with `MalformedSchema`; a zero or over-large
//! array length with `InvalidArrayLength`. `check_file` then decides the
//! well-formedness that the model builder requires, and accepts every clean
//! file: each of its errors names an actual duplicate. The token-level
//! readers (`prim_of_token`, `kind_of_token`, the numeral parser) carry
//! exact contracts; `parse`'s own contract pins the carried path and leaves
//! the line grammar to this documentation and the tests.

use vstd::prelude::*;
use crate::types::{BuildError, DialectFile, EnumEntry, EnumModel, FieldKind, FieldModel,
    MessageModel, Prim};
use crate::model::{wf_enums, msg_ids_unique, entry_names_unique};

verus! {

/// Splits on a separator byte; the pieces, in order, hold no separator.
fn split_on(bytes: &Vec<u8>, sep: u8) -> (r: Vec<Vec<u8>>)
    ensures
        r@.len() >= 1,
        forall|i: int, j: int|
            0 <= i < r@.len() && 0 <= j < r@[i]@.len() ==> (#[trigger] r@[i]@[j]) != sep,
{
    let mut out: Vec<Vec<u8>> = Vec::new();
    let mut cur: Vec<u8> = Vec::new();
    let mut i: usize = 0;
    while i < bytes.len()
        invariant
            forall|a: int, b: int|
                0 <= a < out@.len() && 0 <= b < out@[a]@.len() ==> (#[trigger] out@[a]@[b]) != sep,
            forall|b: int| 0 <= b < cur@.len() ==> (#[trigger] cur@[b]) != sep,
        decreases bytes@.len() - i,
    {
        let c = bytes[i];
        if c == sep {
            out.push(cur);
            cur = Vec::new();
        } else {
            cur.push(c);
        }
        i = i + 1;
    }
    out.push(cur);
    out
}

/// A nonempty string of ASCII decimal digits.
pub open spec fn is_digits(t: Seq<u8>) -> bool {
    t.len() > 0 && (forall|q: int| 0 <= q < t.len() ==> 48 <= #[trigger] t[q] <= 57)
}

/// The number a decimal numeral denotes.
pub open spec fn dec_val(t: Seq<u8>) -> int
    decreases t.len(),
{
    if t.len() == 0 {
        0
    } else {
        dec_val(t.drop_last()) * 10 + (t.last() - 48)
    }
}

proof fn lemma_dec_val_nonneg(t: Seq<u8>)
    requires
        forall|q: int| 0 <= q < t.len() ==> 48 <= #[trigger] t[q] <= 57,
    ensures
        dec_val(t) >= 0,
    decreases t.len(),
{
    if t.len() > 0 {
        lemma_dec_val_nonneg(t.drop_last());
    }
}

/// Appending digits never shrinks a numeral's value.
proof fn lemma_dec_val_take_le(t: Seq<u8>, m: int)
    requires
        forall|q: int| 0 <= q < t.len() ==> 48 <= #[trigger] t[q] <= 57,
        0 <= m <= t.len(),
    ensures
        dec_val(t.take(m)) <= dec_val(t),
    decreases t.len() - m,
{
    if m < t.len() {
        assert(t.take(m + 1).drop_last() =~= t.take(m));
        assert(t.take(m + 1).last() == t[m]);
        assert(forall|q: int| 0 <= q < t.take(m).len() ==> 48 <= #[trigger] t.take(m)[q] <= 57);
        lemma_dec_val_nonneg(t.take(m));
        assert(dec_val(t.take(m + 1)) == dec_val(t.take(m)) * 10 + (t[m] - 48));
        assert(dec_val(t.take(m)) * 10 >= dec_val(t.take(m))) by (nonlinear_arith)
            requires
                dec_val(t.take(m)) >= 0,
        ;
        lemma_dec_val_take_le(t, m + 1);
    } else {
        assert(t.take(m) =~= t);
    }
}

/// Parses an ASCII decimal numeral: exactly the nonempty all-digit tokens
/// whose value fits `u64` parse, to exactly that value.
fn parse_u64(t: &Vec<u8>) -> (r: Option<u64>)
    ensures
        r matches Option::Some(v) ==> is_digits(t@) && v == dec_val(t@),
        r is None ==> !is_digits(t@) || dec_val(t@) > u64::MAX,
{
    if t.len() == 0 {
        return Option::None;
    }
    let mut v: u64 = 0;
    let mut i: usize = 0;
    while i < t.len()
        invariant
            i <= t@.len(),
            t@.len() > 0,
            forall|q: int| 0 <= q < i ==> 48 <= #[trigger] t@[q] <= 57,
            v == dec_val(t@.take(i as int)),
        decreases t@.len() - i,
    {
        let c = t[i];
        if c < 48 || c > 57 {
            return Option::None;
        }
        let d = (c - 48) as u64;
        proof {
            assert(t@.take(i as int + 1).drop_last() =~= t@.take(i as int));
            assert(t@.take(i as int + 1).last() == t@[i as int]);
            assert(dec_val(t@.take(i as int + 1)) == dec_val(t@.take(i as int)) * 10 + (t@[
                i as int] - 48));
        }
        if v > (u64::MAX - d) / 10 {
            proof {
                assert(10 * (v as int) + (d as int) > u64::MAX) by (nonlinear_arith)
                    requires
                        (v as int) > ((u64::MAX - d) as int) / 10,
                        0 <= (d as int) <= 9,
                ;
                if is_digits(t@) {
                    lemma_dec_val_take_le(t@, i as int + 1);
                    assert(dec_val(t@) > u64::MAX);
                }
            }
            return Option::None;
        }
        v = v * 10 + d;
        i = i + 1;
    }
    proof {
        assert(t@.take(t@.len() as int) =~= t@);
    }
    Option::Some(v)
}

fn parse_u32(t: &Vec<u8>) -> (r: Option<u32>)
    ensures
        r matches Option::Some(v) ==> is_digits(t@) && v == dec_val(t@),
        r is None ==> !is_digits(t@) || dec_val(t@) > u32::MAX,
{
    match parse_u64(t) {
        Option::Some(v) => {
            if v <= 0xffff_ffff {
                Option::Some(v as u32)
            } else {
                Option::None
            }
        },
        Option::None => Option::None,
    }
}

/// The primitive kind a type token names: `Some` exactly on the catalog's
/// schema names.
pub fn prim_of_token(t: &Vec<u8>) -> (r: Option<Prim>)
    ensures
        r matches Option::Some(p) ==> t@ == p.schema_name(),
        r is None ==> (forall|p: Prim| t@ != #[trigger] p.schema_name()),
{
    let names: [Prim; 11] = [
        Prim::U8,
        Prim::I8,
        Prim::Char,
        Prim::U16,
        Prim::I16,
        Prim::U32,
        Prim::I32,
        Prim::F32,
        Prim::U64,
        Prim::I64,
        Prim::F64,
    ];
    let mut k: usize = 0;
    while k < 11
        invariant
            names@ == seq![
                Prim::U8, Prim::I8, Prim::Char, Prim::U16, Prim::I16, Prim::U32, Prim::I32,
                Prim::F32, Prim::U64, Prim::I64, Prim::F64,
            ],
            k <= 11,
            forall|q: int| 0 <= q < k ==> t@ != (#[trigger] names@[q]).schema_name(),
        decreases 11 - k,
    {
        let p = names[k];
        let pn = p.schema_name_bytes();
        if crate::model::bytes_eq(t, &pn) {
            return Option::Some(p);
        }
        k = k + 1;
    }
    proof {
        assert forall|p: Prim| t@ != #[trigger] p.schema_name() by {
            assert(t@ != names@[0].schema_name());
            assert(t@ != names@[1].schema_name());
            assert(t@ != names@[2].schema_name());
            assert(t@ != names@[3].schema_name());
            assert(t@ != names@[4].schema_name());
            assert(t@ != names@[5].schema_name());
            assert(t@ != names@[6].schema_name());
            assert(t@ != names@[7].schema_name());
            assert(t@ != names@[8].schema_name());
            assert(t@ != names@[9].schema_name());
            assert(t@ != names@[10].schema_name());
        }
    }
    Option::None
}

/// No schema name of the catalog holds an array-open bracket.
proof fn lemma_schema_name_no_bracket(p: Prim)
    ensures
        forall|q: int| 0 <= q < p.schema_name().len() ==> (#[trigger] p.schema_name()[q]) != 91,
{
    match p {
        Prim::U8 => assert(forall|q: int|
            0 <= q < p.schema_name().len() ==> (#[trigger] p.schema_name()[q]) != 91),
        Prim::I8 => assert(forall|q: int|
            0 <= q < p.schema_name().len() ==> (#[trigger] p.schema_name()[q]) != 91),
        Prim::Char => assert(forall|q: int|
            0 <= q < p.schema_name().len() ==> (#[trigger] p.schema_name()[q]) != 91),
        Prim::U16 => assert(forall|q: int|
            0 <= q < p.schema_name().len() ==> (#[trigger] p.schema_name()[q]) != 91),
        Prim::I16 => assert(forall|q: int|
            0 <= q < p.schema_name().len() ==> (#[trigger] p.schema_name()[q]) != 91),
        Prim::U32 => assert(forall|q: int|
            0 <= q < p.schema_name().len() ==> (#[trigger] p.schema_name()[q]) != 91),
        Prim::I32 => assert(forall|q: int|
            0 <= q < p.schema_name().len() ==> (#[trigger] p.schema_name()[q]) != 91),
        Prim::F32 => assert(forall|q: int|
            0 <= q < p.schema_name().len() ==> (#[trigger] p.schema_name()[q]) != 91),
        Prim::U64 => assert(forall|q: int|
            0 <= q < p.schema_name().len() ==> (#[trigger] p.schema_name()[q]) != 91),
        Prim::I64 => assert(forall|q: int|
            0 <= q < p.schema_name().len() ==> (#[trigger] p.schema_name()[q]) != 91),
        Prim::F64 => assert(forall|q: int|
            0 <= q < p.schema_name().len() ==> (#[trigger] p.schema_name()[q]) != 91),
    }
}

/// Parses a field type token. `Ok(Scalar(p))` exactly on `p`'s schema name;
/// `Ok(Array(p, n))` only on `p`'s schema name followed by a bracketed
/// decimal numeral of value `n`; a numeral of 0 or above 255 fails with
/// `InvalidArrayLength`, every other deviation with `MalformedSchema`.
pub fn kind_of_token(t: &Vec<u8>) -> (r: Result<FieldKind, BuildError>)
    ensures
        r matches Ok(k) ==> k.wf(),
        r is Ok && r->Ok_0.array_len() == 0 ==> t@ == r->Ok_0.prim().schema_name(),
        r is Ok && r->Ok_0.array_len() > 0 ==> (exists|num: Seq<u8>|
            t@ == r->Ok_0.prim().schema_name() + seq![91u8] + num + seq![93u8]
                && #[trigger] is_digits(num) && dec_val(num) == r->Ok_0.array_len()),
        (exists|p: Prim| t@ == #[trigger] p.schema_name()) ==> r is Ok && r->Ok_0.array_len()
            == 0,
        r is Err ==> (r->Err_0 == BuildError::MalformedSchema || r->Err_0
            == BuildError::InvalidArrayLength),
{
    // find the first array-open bracket, if any
    let mut br: usize = t.len();
    let mut i: usize = 0;
    while i < t.len()
        invariant
            i <= t@.len(),
            br <= t@.len(),
            br == t@.len() ==> (forall|q: int| 0 <= q < i ==> (#[trigger] t@[q]) != 91),
            br < t@.len() ==> t@[br as int] == 91 && (forall|q: int|
                0 <= q < br ==> (#[trigger] t@[q]) != 91),
        decreases t@.len() - i,
    {
        if t[i] == 91 && br == t.len() {
            br = i;
        }
        i = i + 1;
    }
    if br == t.len() {
        match prim_of_token(t) {
            Option::Some(p) => {
                proof {
                    assert(FieldKind::Scalar(p).array_len() == 0);
                }
                Ok(FieldKind::Scalar(p))
            },
            Option::None => {
                proof {
                    assert forall|p: Prim| t@ != #[trigger] p.schema_name() by {}
                }
                Err(BuildError::MalformedSchema)
            },
        }
    } else {
        proof {
            // a pure schema name holds no bracket, so this branch is not one
            assert forall|p: Prim| t@ != #[trigger] p.schema_name() by {
                if t@ == p.schema_name() {
                    lemma_schema_name_no_bracket(p);
                    assert(t@[br as int] != 91);
                }
            }
        }
        if t.len() - br < 2 || t[t.len() - 1] != 93 {
            return Err(BuildError::MalformedSchema);
        }
        let mut base: Vec<u8> = Vec::new();
        let mut q: usize = 0;
        while q < br
            invariant
                q <= br,
                br < t@.len(),
                base@ == t@.subrange(0, q as int),
            decreases br - q,
        {
            base.push(t[q]);
            proof {
                assert(base@ =~= t@.subrange(0, q as int + 1));
            }
            q = q + 1;
        }
        let mut num: Vec<u8> = Vec::new();
        let mut q2: usize = br + 1;
        while q2 < t.len() - 1
            invariant
                br + 1 <= q2 <= t@.len() - 1,
                br < t@.len(),
                num@ == t@.subrange(br as int + 1, q2 as int),
            decreases t@.len() - 1 - q2,
        {
            num.push(t[q2]);
            proof {
                assert(num@ =~= t@.subrange(br as int + 1, q2 as int + 1));
            }
            q2 = q2 + 1;
        }
        let p = match prim_of_token(&base) {
            Option::Some(p) => p,
            Option::None => {
                return Err(BuildError::MalformedSchema);
            },
        };
        let n = match parse_u64(&num) {
            Option::Some(n) => n,
            Option::None => {
                return Err(BuildError::MalformedSchema);
            },
        };
        if n == 0 || n > 255 {
            return Err(BuildError::InvalidArrayLength);
        }
        proof {
            assert(t@[br as int] == 91);
            assert(t@[t@.len() - 1] == 93);
            assert(t@ =~= t@.subrange(0, br as int) + seq![91u8] + t@.subrange(
                br as int + 1,
                t@.len() - 1,
            ) + seq![93u8]);
            assert(base@ == t@.subrange(0, br as int));
            assert(num@ == t@.subrange(br as int + 1, t@.len() - 1));
            assert(t@ == p.schema_name() + seq![91u8] + num@ + seq![93u8]);
            assert(is_digits(num@) && dec_val(num@) == n as int);
            assert(FieldKind::Array(p, n as usize).array_len() == n);
        }
        Ok(FieldKind::Array(p, n as usize))
    }
}

/// Parses one definition file. The returned `DialectFile` carries the given
/// canonical path; `check_file` decides the uniqueness conditions the model
/// builder requires, which this function does not.
pub fn parse(bytes: &Vec<u8>, path: &Vec<u8>) -> (r: Result<DialectFile, BuildError>)
    ensures
        r matches Ok(d) ==> d.path@ == path@,
{
    let lines = split_on(bytes, 10);
    let mut version: u32 = 0;
    let mut saw_header = false;
    let mut imports: Vec<Vec<u8>> = Vec::new();
    let mut enums: Vec<EnumModel> = Vec::new();
    let mut messages: Vec<MessageModel> = Vec::new();
    // the enum or message currently open, if any
    let mut open_enum: Option<EnumModel> = Option::None;
    let mut open_msg: Option<MessageModel> = Option::None;
    let mut in_ext = false;
    let mut li: usize = 0;
    while li < lines.len()
        decreases lines@.len() - li,
    {
        let toks = split_on(&lines[li], 32);
        li = li + 1;
        if toks.len() == 1 && toks[0].len() == 0 {
            continue ;
        }
        let tag = &toks[0];
        if tag.len() != 1 {
            return Err(BuildError::MalformedSchema);
        }
        let t0 = tag[0];
        if t0 == 100 {
            // 'd': dialect header
            if saw_header || toks.len() != 2 {
                return Err(BuildError::MalformedSchema);
            }
            version = match parse_u32(&toks[1]) {
                Option::Some(v) => v,
                Option::None => {
                    return Err(BuildError::MalformedSchema);
                },
            };
            saw_header = true;
        } else if t0 == 105 {
            // 'i': import reference
            if !saw_header || toks.len() != 2 || toks[1].len() == 0 {
                return Err(BuildError::MalformedSchema);
            }
            let mut p: Vec<u8> = Vec::new();
            let mut q: usize = 0;
            let pt = &toks[1];
            while q < pt.len()
                decreases pt@.len() - q,
            {
                p.push(pt[q]);
                q = q + 1;
            }
            imports.push(p);
        } else if t0 == 101 {
            // 'e': an enum opens
            if !saw_header || open_enum.is_some() || open_msg.is_some() {
                return Err(BuildError::MalformedSchema);
            }
            if toks.len() != 2 && toks.len() != 3 {
                return Err(BuildError::MalformedSchema);
            }
            if toks[1].len() == 0 {
                return Err(BuildError::MalformedSchema);
            }
            let mut bitmask = false;
            if toks.len() == 3 {
                if toks[2].len() == 1 && toks[2][0] == 98 {
                    bitmask = true;
                } else {
                    return Err(BuildError::MalformedSchema);
                }
            }
            let mut nm: Vec<u8> = Vec::new();
            let mut q: usize = 0;
            let nt = &toks[1];
            while q < nt.len()
                decreases nt@.len() - q,
            {
                nm.push(nt[q]);
                q = q + 1;
            }
            open_enum = Option::Some(EnumModel { name: nm, entries: Vec::new(), is_bitmask: bitmask });
        } else if t0 == 118 {
            // 'v': an entry of the open enum
            if toks.len() < 3 {
                return Err(BuildError::MalformedSchema);
            }
            let value = match parse_u64(&toks[2]) {
                Option::Some(v) => v,
                Option::None => {
                    return Err(BuildError::MalformedSchema);
                },
            };
            if toks[1].len() == 0 {
                return Err(BuildError::MalformedSchema);
            }
            match open_enum {
                Option::Some(mut e) => {
                    let mut nm: Vec<u8> = Vec::new();
                    let mut q: usize = 0;
                    let nt = &toks[1];
                    while q < nt.len()
                        decreases nt@.len() - q,
                    {
                        nm.push(nt[q]);
                        q = q + 1;
                    }
                    let mut desc: Vec<u8> = Vec::new();
                    let mut w: usize = 3;
                    while w < toks.len()
                        decreases toks@.len() - w,
                    {
                        if w > 3 {
                            desc.push(32);
                        }
                        let dt = &toks[w];
                        let mut q2: usize = 0;
                        while q2 < dt.len()
                            decreases dt@.len() - q2,
                        {
                            desc.push(dt[q2]);
                            q2 = q2 + 1;
                        }
                        w = w + 1;
                    }
                    e.entries.push(EnumEntry { value, name: nm, description: desc, inherited: false });
                    open_enum = Option::Some(e);
                },
                Option::None => {
                    return Err(BuildError::MalformedSchema);
                },
            }
        } else if t0 == 109 {
            // 'm': a message opens
            if !saw_header || open_enum.is_some() || open_msg.is_some() || toks.len() != 3 {
                return Err(BuildError::MalformedSchema);
            }
            let id = match parse_u32(&toks[1]) {
                Option::Some(v) => v,
                Option::None => {
                    return Err(BuildError::MalformedSchema);
                },
            };
            if toks[2].len() == 0 {
                return Err(BuildError::MalformedSchema);
            }
            let mut nm: Vec<u8> = Vec::new();
            let mut q: usize = 0;
            let nt = &toks[2];
            while q < nt.len()
                decreases nt@.len() - q,
            {
                nm.push(nt[q]);
                q = q + 1;
            }
            open_msg = Option::Some(MessageModel {
                id,
                name: nm,
                description: Vec::new(),
                fields: Vec::new(),
                deprecated: false,
                wip: false,
            });
            in_ext = false;
        } else if t0 == 102 {
            // 'f': a field of the open message
            if toks.len() < 3 {
                return Err(BuildError::MalformedSchema);
            }
            let kind = match kind_of_token(&toks[1]) {
                Ok(k) => k,
                Err(e) => {
                    return Err(e);
                },
            };
            if toks[2].len() == 0 {
                return Err(BuildError::MalformedSchema);
            }
            match open_msg {
                Option::Some(mut msg) => {
                    if msg.fields.len() >= 255 {
                        return Err(BuildError::MalformedMessage);
                    }
                    let mut nm: Vec<u8> = Vec::new();
                    let mut q: usize = 0;
                    let nt = &toks[2];
                    while q < nt.len()
                        decreases nt@.len() - q,
                    {
                        nm.push(nt[q]);
                        q = q + 1;
                    }
                    let mut enum_ref: Option<Vec<u8>> = Option::None;
                    if toks.len() >= 4 {
                        let et = &toks[3];
                        if !(et.len() == 1 && et[0] == 45) {
                            let mut en: Vec<u8> = Vec::new();
                            let mut q2: usize = 0;
                            while q2 < et.len()
                                decreases et@.len() - q2,
                            {
                                en.push(et[q2]);
                                q2 = q2 + 1;
                            }
                            enum_ref = Option::Some(en);
                        }
                    }
                    let mut units: Vec<u8> = Vec::new();
                    let mut w: usize = 4;
                    while w < toks.len()
                        decreases toks@.len() - w,
                    {
                        if w > 4 {
                            units.push(32);
                        }
                        let ut = &toks[w];
                        let mut q3: usize = 0;
                        while q3 < ut.len()
                            decreases ut@.len() - q3,
                        {
                            units.push(ut[q3]);
                            q3 = q3 + 1;
                        }
                        w = w + 1;
                    }
                    msg.fields.push(FieldModel {
                        name: nm,
                        kind,
                        enum_ref,
                        units,
                        is_extension: in_ext,
                    });
                    open_msg = Option::Some(msg);
                },
                Option::None => {
                    return Err(BuildError::MalformedSchema);
                },
            }
        } else if t0 == 120 {
            // 'x': the extension marker
            if open_msg.is_none() || in_ext || toks.len() != 1 {
                return Err(BuildError::MalformedSchema);
            }
            in_ext = true;
        } else if t0 == 46 {
            // '.': close the open enum or message
            if toks.len() != 1 {
                return Err(BuildError::MalformedSchema);
            }
            match open_enum {
                Option::Some(e) => {
                    enums.push(e);
                    open_enum = Option::None;
                },
                Option::None => {
                    match open_msg {
                        Option::Some(msg) => {
                            messages.push(msg);
                            open_msg = Option::None;
                            in_ext = false;
                        },
                        Option::None => {
                            return Err(BuildError::MalformedSchema);
                        },
                    }
                },
            }
        } else {
            return Err(BuildError::MalformedSchema);
        }
    }
    if !saw_header || open_enum.is_some() || open_msg.is_some() {
        return Err(BuildError::MalformedSchema);
    }
    let mut p: Vec<u8> = Vec::new();
    let mut q: usize = 0;
    while q < path.len()
        invariant
            q <= path@.len(),
            p@ == path@.take(q as int),
        decreases path@.len() - q,
    {
        p.push(path[q]);
        proof {
            assert(p@ =~= path@.take(q as int + 1));
        }
        q = q + 1;
    }
    proof {
        assert(path@.take(path@.len() as int) =~= path@);
    }
    Ok(DialectFile { path: p, version, imports, enums, messages })
}

/// Decides the conditions the model builder requires of one parsed file:
/// unique enum names, unique entry names per enum, unique message ids. Each
/// error names an actual duplicate, so a clean file is always accepted.
pub fn check_file(f: &DialectFile) -> (r: Result<(), BuildError>)
    ensures
        r is Ok ==> wf_enums(f.enums@) && msg_ids_unique(f.messages@),
        r is Err ==> (r->Err_0 == BuildError::MalformedSchema || r->Err_0
            == BuildError::DuplicateEnumEntry || r->Err_0 == BuildError::DuplicateMessageId),
        r is Err && r->Err_0 == BuildError::MalformedSchema ==> (exists|i1: int, i2: int|
            0 <= i1 < i2 < f.enums@.len() && (#[trigger] f.enums@[i1]).name@ == (
            #[trigger] f.enums@[i2]).name@),
        r is Err && r->Err_0 == BuildError::DuplicateEnumEntry ==> (exists|
            i: int,
            j1: int,
            j2: int,
        |
            #![trigger f.enums@[i].entries@[j1], f.enums@[i].entries@[j2]]
            0 <= i < f.enums@.len() && 0 <= j1 < j2 < f.enums@[i].entries@.len() && f.enums@[
                i].entries@[j1].name@ == f.enums@[i].entries@[j2].name@),
        r is Err && r->Err_0 == BuildError::DuplicateMessageId ==> (exists|i1: int, i2: int|
            0 <= i1 < i2 < f.messages@.len() && (#[trigger] f.messages@[i1]).id == (
            #[trigger] f.messages@[i2]).id),
{
    let mut i: usize = 0;
    while i < f.enums.len()
        invariant
            i <= f.enums@.len(),
            forall|a: int, b: int|
                0 <= a < b < i ==> (#[trigger] f.enums@[a]).name@ != (#[trigger] f.enums@[b]).name@,
            forall|a: int|
                0 <= a < i ==> entry_names_unique((#[trigger] f.enums@[a]).entries@),
        decreases f.enums@.len() - i,
    {
        let e = &f.enums[i];
        let mut a: usize = 0;
        while a < i
            invariant
                a <= i,
                i < f.enums@.len(),
                e == &f.enums@[i as int],
                forall|q: int| 0 <= q < a ==> (#[trigger] f.enums@[q]).name@ != e.name@,
            decreases i - a,
        {
            if crate::model::bytes_eq(&f.enums[a].name, &e.name) {
                proof {
                    assert(f.enums@[a as int].name@ == f.enums@[i as int].name@);
                }
                return Err(BuildError::MalformedSchema);
            }
            a = a + 1;
        }
        let mut j: usize = 0;
        while j < e.entries.len()
            invariant
                j <= e.entries@.len(),
                i < f.enums@.len(),
                e == &f.enums@[i as int],
                forall|a2: int, b2: int|
                    0 <= a2 < b2 < j ==> (#[trigger] e.entries@[a2]).name@ != (
                    #[trigger] e.entries@[b2]).name@,
            decreases e.entries@.len() - j,
        {
            let mut b2: usize = 0;
            while b2 < j
                invariant
                    b2 <= j,
                    j < e.entries@.len(),
                    i < f.enums@.len(),
                    e == &f.enums@[i as int],
                    forall|q: int|
                        0 <= q < b2 ==> (#[trigger] e.entries@[q]).name@ != e.entries@[j as int].name@,
                decreases j - b2,
            {
                if crate::model::bytes_eq(&e.entries[b2].name, &e.entries[j].name) {
                    proof {
                        assert(f.enums@[i as int].entries@[b2 as int].name@ == f.enums@[
                            i as int].entries@[j as int].name@);
                    }
                    return Err(BuildError::DuplicateEnumEntry);
                }
                b2 = b2 + 1;
            }
            j = j + 1;
        }
        i = i + 1;
    }
    let mut i2: usize = 0;
    while i2 < f.messages.len()
        invariant
            i2 <= f.messages@.len(),
            forall|a: int, b: int|
                0 <= a < b < i2 ==> (#[trigger] f.messages@[a]).id != (#[trigger] f.messages@[b]).id,
        decreases f.messages@.len() - i2,
    {
        let mut a: usize = 0;
        while a < i2
            invariant
                a <= i2,
                i2 < f.messages@.len(),
                forall|q: int|
                    0 <= q < a ==> (#[trigger] f.messages@[q]).id != f.messages@[i2 as int].id,
            decreases i2 - a,
        {
            if f.messages[a].id == f.messages[i2].id {
                proof {
                    assert(f.messages@[a as int].id == f.messages@[i2 as int].id);
                }
                return Err(BuildError::DuplicateMessageId);
            }
            a = a + 1;
        }
        i2 = i2 + 1;
    }
    Ok(())
}

} // verus!
