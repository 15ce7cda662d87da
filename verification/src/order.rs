//! Byte-lexicographic ordering of keys.
//!
//! Row-store tables keep their records sorted by raw key bytes. This module
//! defines that order as a specification, proves it is a strict total order,
//! and gives the executable three-way comparison together with the
//! [`CompareStatus`] value that cursor comparisons report.

use vstd::prelude::*;

verus! {

/// The outcome of comparing two cursor positions: how the first stands
/// relative to the second in the data source's key order.
#[derive(Debug, Clone, Copy, PartialEq, Eq, Structural)]
pub enum CompareStatus {
    LessThan,
    Equal,
    GreaterThan,
}

impl CompareStatus {
    /// Translates the signed comparison out-parameter the engine protocol
    /// uses: negative means less, zero equal, positive greater.
    pub fn from_code(code: i32) -> (r: Self)
        ensures
            (r is LessThan) == (code < 0),
            (r is Equal) == (code == 0),
            (r is GreaterThan) == (code > 0),
    {
        if code < 0 {
            Self::LessThan
        } else if code == 0 {
            Self::Equal
        } else {
            Self::GreaterThan
        }
    }
}

/// Strict byte-lexicographic order: `a` comes before `b`.
pub open spec fn lex_lt(a: Seq<u8>, b: Seq<u8>) -> bool
    decreases a.len(),
{
    if b.len() == 0 {
        false
    } else if a.len() == 0 {
        true
    } else if a[0] < b[0] {
        true
    } else if a[0] > b[0] {
        false
    } else {
        lex_lt(a.skip(1), b.skip(1))
    }
}

/// Non-strict byte-lexicographic order.
pub open spec fn lex_le(a: Seq<u8>, b: Seq<u8>) -> bool {
    lex_lt(a, b) || a == b
}

/// No sequence comes before itself.
pub proof fn lemma_lex_irrefl(a: Seq<u8>)
    ensures
        !lex_lt(a, a),
    decreases a.len(),
{
    if a.len() > 0 {
        lemma_lex_irrefl(a.skip(1));
    }
}

/// Exactly one of `a < b`, `a == b`, `b < a` holds.
pub proof fn lemma_lex_trichotomy(a: Seq<u8>, b: Seq<u8>)
    ensures
        lex_lt(a, b) || lex_lt(b, a) || a == b,
        lex_lt(a, b) ==> !lex_lt(b, a) && a != b,
        lex_lt(b, a) ==> !lex_lt(a, b) && a != b,
    decreases a.len(),
{
    lemma_lex_irrefl(a);
    if a.len() > 0 && b.len() > 0 && a[0] == b[0] {
        lemma_lex_trichotomy(a.skip(1), b.skip(1));
        if !lex_lt(a.skip(1), b.skip(1)) && !lex_lt(b.skip(1), a.skip(1)) {
            assert(a.skip(1) == b.skip(1));
            assert forall|j: int| 0 <= j < a.len() implies a[j] == b[j] by {
                if j > 0 {
                    assert(a.skip(1)[j - 1] == b.skip(1)[j - 1]);
                }
            }
            assert(a =~= b);
        }
    } else if a.len() == 0 && b.len() == 0 {
        assert(a =~= b);
    } else if a.len() == 0 {
        assert(lex_lt(a, b));
    } else if b.len() == 0 {
        assert(lex_lt(b, a));
    } else if a[0] < b[0] {
        assert(lex_lt(a, b));
    } else {
        assert(lex_lt(b, a));
    }
}

/// The order is transitive.
pub proof fn lemma_lex_trans(a: Seq<u8>, b: Seq<u8>, c: Seq<u8>)
    requires
        lex_lt(a, b),
        lex_lt(b, c),
    ensures
        lex_lt(a, c),
    decreases a.len(),
{
    if a.len() > 0 && b.len() > 0 && c.len() > 0 && a[0] == b[0] && b[0] == c[0] {
        lemma_lex_trans(a.skip(1), b.skip(1), c.skip(1));
    }
}

/// Three-way comparison of two byte strings in the key order.
pub fn byte_cmp(a: &[u8], b: &[u8]) -> (r: CompareStatus)
    ensures
        (r is LessThan) == lex_lt(a@, b@),
        (r is Equal) == (a@ == b@),
        (r is GreaterThan) == lex_lt(b@, a@),
{
    proof {
        lemma_lex_trichotomy(a@, b@);
        assert(a@.skip(0) =~= a@);
        assert(b@.skip(0) =~= b@);
    }
    let mut i: usize = 0;
    loop
        invariant
            i <= a@.len(),
            i <= b@.len(),
            lex_lt(a@, b@) == lex_lt(a@.skip(i as int), b@.skip(i as int)),
            lex_lt(b@, a@) == lex_lt(b@.skip(i as int), a@.skip(i as int)),
            a@.subrange(0, i as int) =~= b@.subrange(0, i as int),
            lex_lt(a@, b@) ==> !lex_lt(b@, a@) && a@ != b@,
            lex_lt(b@, a@) ==> !lex_lt(a@, b@) && a@ != b@,
            lex_lt(a@, b@) || lex_lt(b@, a@) || a@ == b@,
        decreases a@.len() - i,
    {
        if i == a.len() && i == b.len() {
            proof {
                assert forall|j: int| 0 <= j < a@.len() implies a@[j] == b@[j] by {
                    assert(a@.subrange(0, i as int)[j] == b@.subrange(0, i as int)[j]);
                }
                assert(a@ =~= b@);
            }
            return CompareStatus::Equal;
        } else if i == a.len() {
            assert(lex_lt(a@.skip(i as int), b@.skip(i as int)));
            return CompareStatus::LessThan;
        } else if i == b.len() {
            assert(lex_lt(b@.skip(i as int), a@.skip(i as int)));
            return CompareStatus::GreaterThan;
        } else if a[i] < b[i] {
            assert(a@.skip(i as int)[0] == a@[i as int]);
            assert(b@.skip(i as int)[0] == b@[i as int]);
            return CompareStatus::LessThan;
        } else if a[i] > b[i] {
            assert(a@.skip(i as int)[0] == a@[i as int]);
            assert(b@.skip(i as int)[0] == b@[i as int]);
            return CompareStatus::GreaterThan;
        } else {
            proof {
                assert(a@.skip(i as int)[0] == a@[i as int]);
                assert(b@.skip(i as int)[0] == b@[i as int]);
                assert(a@.skip(i as int).skip(1) =~= a@.skip(i + 1 as int));
                assert(b@.skip(i as int).skip(1) =~= b@.skip(i + 1 as int));
                assert(a@.subrange(0, i + 1 as int) =~= b@.subrange(0, i + 1 as int));
            }
            i = i + 1;
        }
    }
}

/// Whether two byte strings hold the same bytes.
pub fn byte_eq(a: &[u8], b: &[u8]) -> (r: bool)
    ensures
        r == (a@ == b@),
{
    let c = byte_cmp(a, b);
    matches!(c, CompareStatus::Equal)
}

/// Whether `a` comes strictly before `b` in the key order.
pub fn byte_lt(a: &[u8], b: &[u8]) -> (r: bool)
    ensures
        r == lex_lt(a@, b@),
{
    let c = byte_cmp(a, b);
    matches!(c, CompareStatus::LessThan)
}

} // verus!
