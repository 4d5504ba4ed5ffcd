//! Keys as byte strings: when two are equal, and which comes first.

use vstd::prelude::*;
use crate::record::{key_bytes, lemma_key_bytes_injective};

verus! {

/// How one key stands to another in the order of their bytes.
#[derive(Debug, Clone, Copy, PartialEq, Eq)]
pub enum KeyOrder {
    Before,
    Same,
    After,
}

/// `a` and `b` agree before position `i`, and there `a` ends or has the smaller byte.
pub open spec fn lt_at(a: Seq<u8>, b: Seq<u8>, i: int) -> bool {
    &&& 0 <= i <= a.len()
    &&& i <= b.len()
    &&& forall|j: int| 0 <= j < i ==> a[j] == b[j]
    &&& (i == a.len() && i < b.len()) || (i < a.len() && i < b.len() && a[i] < b[i])
}

/// `a` comes before `b` in the lexicographic order of bytes.
pub open spec fn lex_lt(a: Seq<u8>, b: Seq<u8>) -> bool {
    exists|i: int| lt_at(a, b, i)
}

/// `a` is a prefix of `b`.
pub open spec fn is_prefix(a: Seq<u8>, b: Seq<u8>) -> bool {
    a.len() <= b.len() && b.subrange(0, a.len() as int) == a
}

/// No byte string comes before itself.
pub proof fn lemma_lex_irreflexive(a: Seq<u8>)
    ensures
        !lex_lt(a, a),
{
}

/// The order is transitive.
pub proof fn lemma_lex_transitive(a: Seq<u8>, b: Seq<u8>, c: Seq<u8>)
    requires
        lex_lt(a, b),
        lex_lt(b, c),
    ensures
        lex_lt(a, c),
{
    let i1 = choose|i: int| lt_at(a, b, i);
    let i2 = choose|i: int| lt_at(b, c, i);
    if i1 <= i2 {
        assert(lt_at(a, c, i1));
    } else {
        assert(lt_at(a, c, i2));
    }
}

/// Whether two byte strings are the same.
pub fn bytes_eq(a: &[u8], b: &[u8]) -> (res: bool)
    ensures
        res == (a@ == b@),
{
    if a.len() != b.len() {
        return false;
    }
    let mut i: usize = 0;
    while i < a.len()
        invariant
            a@.len() == b@.len(),
            i <= a@.len(),
            forall|j: int| 0 <= j < i ==> a@[j] == b@[j],
        decreases a@.len() - i,
    {
        if a[i] != b[i] {
            return false;
        }
        i += 1;
    }
    assert(a@ =~= b@);
    true
}

/// Whether `prefix` is a prefix of `bytes`.
pub fn starts_with(bytes: &[u8], prefix: &[u8]) -> (res: bool)
    ensures
        res == is_prefix(prefix@, bytes@),
{
    if prefix.len() > bytes.len() {
        return false;
    }
    let mut i: usize = 0;
    while i < prefix.len()
        invariant
            prefix@.len() <= bytes@.len(),
            i <= prefix@.len(),
            forall|j: int| 0 <= j < i ==> prefix@[j] == bytes@[j],
        decreases prefix@.len() - i,
    {
        if prefix[i] != bytes[i] {
            assert(bytes@.subrange(0, prefix@.len() as int)[i as int] == bytes@[i as int]);
            return false;
        }
        i += 1;
    }
    assert(bytes@.subrange(0, prefix@.len() as int) =~= prefix@);
    true
}

/// Where `a` stands to `b` in the lexicographic order of bytes.
pub fn byte_order(a: &[u8], b: &[u8]) -> (res: KeyOrder)
    ensures
        res is Before <==> lex_lt(a@, b@),
        res is Same <==> a@ == b@,
        res is After <==> lex_lt(b@, a@),
{
    let mut i: usize = 0;
    while i < a.len() && i < b.len()
        invariant
            i <= a@.len(),
            i <= b@.len(),
            forall|j: int| 0 <= j < i ==> a@[j] == b@[j],
        decreases a@.len() - i,
    {
        if a[i] < b[i] {
            proof {
                assert(lt_at(a@, b@, i as int));
                lemma_lex_asymmetric(a@, b@);
            }
            return KeyOrder::Before;
        }
        if a[i] > b[i] {
            proof {
                assert(lt_at(b@, a@, i as int));
                lemma_lex_asymmetric(b@, a@);
            }
            return KeyOrder::After;
        }
        i += 1;
    }
    if a.len() < b.len() {
        proof {
            assert(lt_at(a@, b@, i as int));
            lemma_lex_asymmetric(a@, b@);
        }
        KeyOrder::Before
    } else if a.len() > b.len() {
        proof {
            assert(lt_at(b@, a@, i as int));
            lemma_lex_asymmetric(b@, a@);
        }
        KeyOrder::After
    } else {
        proof {
            assert(a@ =~= b@);
            lemma_lex_irreflexive(a@);
        }
        KeyOrder::Same
    }
}

/// If `a` comes before `b`, they differ and `b` does not come before `a`.
pub proof fn lemma_lex_asymmetric(a: Seq<u8>, b: Seq<u8>)
    requires
        lex_lt(a, b),
    ensures
        a != b,
        !lex_lt(b, a),
{
    lemma_lex_irreflexive(a);
    if lex_lt(b, a) {
        lemma_lex_transitive(a, b, a);
    }
}

/// Whether two keys have the same bytes.
pub fn key_eq(a: &str, b: &str) -> (res: bool)
    ensures
        res == (key_bytes(a@) == key_bytes(b@)),
{
    bytes_eq(a.as_bytes(), b.as_bytes())
}

/// Whether two strings are the same.
pub fn str_eq(a: &str, b: &str) -> (res: bool)
    ensures
        res == (a@ == b@),
{
    let res = key_eq(a, b);
    proof {
        if res {
            lemma_key_bytes_injective(a@, b@);
        }
    }
    res
}

/// Where key `a` stands to key `b` in the order of their bytes.
pub fn key_order(a: &str, b: &str) -> (res: KeyOrder)
    ensures
        res is Before <==> lex_lt(key_bytes(a@), key_bytes(b@)),
        res is Same <==> key_bytes(a@) == key_bytes(b@),
        res is After <==> lex_lt(key_bytes(b@), key_bytes(a@)),
{
    byte_order(a.as_bytes(), b.as_bytes())
}

} // verus!
