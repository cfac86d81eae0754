//! The code emitter's identifier naming: a fixed, reversible transform from
//! schema names to target identifiers. A name that collides with a reserved
//! word of the target language — or that already ends with the escape
//! suffix — gets one underscore appended; every other name passes through
//! unchanged. The transform is proved injective, so generated identifiers
//! never collide and the schema name can always be recovered.

use vstd::prelude::*;

verus! {

/// The target language's reserved words that schema names may collide with.
pub open spec fn is_reserved(name: Seq<u8>) -> bool {
    ||| name == seq![102u8, 110]  // fn
    ||| name == seq![116u8, 121, 112, 101]  // type
    ||| name == seq![101u8, 110, 117, 109]  // enum
    ||| name == seq![115u8, 116, 114, 117, 99, 116]  // struct
    ||| name == seq![109u8, 97, 116, 99, 104]  // match
    ||| name == seq![109u8, 111, 100]  // mod
    ||| name == seq![117u8, 115, 101]  // use
    ||| name == seq![105u8, 109, 112, 108]  // impl
}

/// A name that needs the escape suffix: a reserved word, or a name already
/// ending with the suffix (so that escaping stays injective).
pub open spec fn needs_escape(name: Seq<u8>) -> bool {
    is_reserved(name) || (name.len() > 0 && name.last() == 95)
}

/// The fixed naming transform.
pub open spec fn spec_ident_of(name: Seq<u8>) -> Seq<u8> {
    if needs_escape(name) {
        name + seq![95u8]
    } else {
        name
    }
}

/// Law: the naming transform is reversible — two schema names that render
/// to the same target identifier are the same name, so generated
/// identifiers never collide.
pub proof fn lemma_ident_reversible(a: Seq<u8>, b: Seq<u8>)
    requires
        spec_ident_of(a) == spec_ident_of(b),
    ensures
        a == b,
{
    if needs_escape(a) && needs_escape(b) {
        assert((a + seq![95u8]).drop_last() =~= a);
        assert((b + seq![95u8]).drop_last() =~= b);
    } else if needs_escape(a) && !needs_escape(b) {
        assert(b == a + seq![95u8]);
        assert(b.len() > 0 && b.last() == 95);
    } else if !needs_escape(a) && needs_escape(b) {
        assert(a == b + seq![95u8]);
        assert(a.len() > 0 && a.last() == 95);
    }
}

/// Every reserved word is one of the indexed keywords.
proof fn lemma_reserved_indexed(n: Seq<u8>)
    requires
        is_reserved(n),
    ensures
        exists|k2: int| 0 <= k2 < 8 && spec_keyword(k2) == n,
{
    if n == seq![102u8, 110] {
        assert(spec_keyword(0) == n);
    } else if n == seq![116u8, 121, 112, 101] {
        assert(spec_keyword(1) == n);
    } else if n == seq![101u8, 110, 117, 109] {
        assert(spec_keyword(2) == n);
    } else if n == seq![115u8, 116, 114, 117, 99, 116] {
        assert(spec_keyword(3) == n);
    } else if n == seq![109u8, 97, 116, 99, 104] {
        assert(spec_keyword(4) == n);
    } else if n == seq![109u8, 111, 100] {
        assert(spec_keyword(5) == n);
    } else if n == seq![117u8, 115, 101] {
        assert(spec_keyword(6) == n);
    } else {
        assert(spec_keyword(7) == n);
    }
}

fn keyword(k: usize) -> (r: Vec<u8>)
    requires
        k < 8,
    ensures
        is_reserved(r@),
        r@ == spec_keyword(k as int),
{
    let mut v: Vec<u8> = Vec::new();
    if k == 0 {
        v.push(102);
        v.push(110);
    } else if k == 1 {
        v.push(116);
        v.push(121);
        v.push(112);
        v.push(101);
    } else if k == 2 {
        v.push(101);
        v.push(110);
        v.push(117);
        v.push(109);
    } else if k == 3 {
        v.push(115);
        v.push(116);
        v.push(114);
        v.push(117);
        v.push(99);
        v.push(116);
    } else if k == 4 {
        v.push(109);
        v.push(97);
        v.push(116);
        v.push(99);
        v.push(104);
    } else if k == 5 {
        v.push(109);
        v.push(111);
        v.push(100);
    } else if k == 6 {
        v.push(117);
        v.push(115);
        v.push(101);
    } else {
        v.push(105);
        v.push(109);
        v.push(112);
        v.push(108);
    }
    proof {
        assert(v@ =~= spec_keyword(k as int));
    }
    v
}

/// The reserved words, indexed.
pub open spec fn spec_keyword(k: int) -> Seq<u8> {
    if k == 0 {
        seq![102u8, 110]
    } else if k == 1 {
        seq![116u8, 121, 112, 101]
    } else if k == 2 {
        seq![101u8, 110, 117, 109]
    } else if k == 3 {
        seq![115u8, 116, 114, 117, 99, 116]
    } else if k == 4 {
        seq![109u8, 97, 116, 99, 104]
    } else if k == 5 {
        seq![109u8, 111, 100]
    } else if k == 6 {
        seq![117u8, 115, 101]
    } else {
        seq![105u8, 109, 112, 108]
    }
}

/// Renders a schema name as a target identifier: the fixed, reversible
/// transform of the code emitter.
pub fn ident_of(name: &Vec<u8>) -> (r: Vec<u8>)
    ensures
        r@ == spec_ident_of(name@),
{
    let mut escape = false;
    if name.len() > 0 && name[name.len() - 1] == 95 {
        escape = true;
    }
    let mut k: usize = 0;
    while k < 8
        invariant
            escape ==> needs_escape(name@),
            !escape ==> !(name@.len() > 0 && name@.last() == 95),
            !escape ==> (forall|k2: int| 0 <= k2 < k ==> spec_keyword(k2) != name@),
            k <= 8,
        decreases 8 - k,
    {
        let kw = keyword(k);
        if crate::model::bytes_eq(name, &kw) {
            escape = true;
        }
        k = k + 1;
    }
    proof {
        if !escape {
            assert(!needs_escape(name@)) by {
                if is_reserved(name@) {
                    lemma_reserved_indexed(name@);
                    let k2 = choose|k2: int| 0 <= k2 < 8 && spec_keyword(k2) == name@;
                    assert(spec_keyword(k2) != name@);
                }
            }
        }
    }
    let mut out: Vec<u8> = Vec::new();
    let mut i: usize = 0;
    while i < name.len()
        invariant
            i <= name@.len(),
            out@ == name@.take(i as int),
        decreases name@.len() - i,
    {
        out.push(name[i]);
        proof {
            assert(out@ =~= name@.take(i as int + 1));
        }
        i = i + 1;
    }
    proof {
        assert(name@.take(name@.len() as int) =~= name@);
    }
    if escape {
        out.push(95);
        proof {
            assert(out@ =~= name@ + seq![95u8]);
        }
    }
    out
}

} // verus!
