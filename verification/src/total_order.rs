//! A total order that the verifier can reason about.
//!
//! The ordered binary tree needs to compare its elements and to know, in
//! proofs, that the comparison is total and transitive.  The derived `Ord` of
//! std gives the verifier nothing, so the tree is generic over this trait
//! instead, and the element types used here implement it.

use vstd::prelude::*;
use vstd::string::*;

verus! {

/// A total order on `Self`: a spec-level relation, the laws that make it a
/// total order, and an executable decision procedure for it.
pub trait TotalOrder: Sized {
    /// What "less than or equal" means for this type.
    spec fn le_spec(self, other: Self) -> bool;

    /// Any two values compare one way or the other.
    proof fn lemma_total(a: Self, b: Self)
        ensures
            a.le_spec(b) || b.le_spec(a),
    ;

    /// The order is transitive.
    proof fn lemma_transitive(a: Self, b: Self, c: Self)
        requires
            a.le_spec(b),
            b.le_spec(c),
        ensures
            a.le_spec(c),
    ;

    /// Decide the order.
    fn le(&self, other: &Self) -> (r: bool)
        ensures
            r == self.le_spec(*other),
    ;
}

impl TotalOrder for i32 {
    open spec fn le_spec(self, other: Self) -> bool {
        self <= other
    }

    proof fn lemma_total(a: Self, b: Self) {
    }

    proof fn lemma_transitive(a: Self, b: Self, c: Self) {
    }

    fn le(&self, other: &Self) -> (r: bool) {
        *self <= *other
    }
}

impl TotalOrder for u64 {
    open spec fn le_spec(self, other: Self) -> bool {
        self <= other
    }

    proof fn lemma_total(a: Self, b: Self) {
    }

    proof fn lemma_transitive(a: Self, b: Self, c: Self) {
    }

    fn le(&self, other: &Self) -> (r: bool) {
        *self <= *other
    }
}

/// Lexicographic order on byte sequences: the empty sequence comes first, a
/// proper prefix comes before what extends it, and otherwise the first
/// differing byte decides.
pub open spec fn lex_le_bytes(a: Seq<u8>, b: Seq<u8>) -> bool
    decreases a.len(),
{
    if a.len() == 0 {
        true
    } else if b.len() == 0 {
        false
    } else if a[0] == b[0] {
        lex_le_bytes(a.drop_first(), b.drop_first())
    } else {
        a[0] < b[0]
    }
}

/// Lexicographic order is total.
pub proof fn lemma_lex_le_bytes_total(a: Seq<u8>, b: Seq<u8>)
    ensures
        lex_le_bytes(a, b) || lex_le_bytes(b, a),
    decreases a.len(),
{
    if a.len() > 0 && b.len() > 0 && a[0] == b[0] {
        lemma_lex_le_bytes_total(a.drop_first(), b.drop_first());
    }
}

/// Lexicographic order is transitive.
pub proof fn lemma_lex_le_bytes_transitive(a: Seq<u8>, b: Seq<u8>, c: Seq<u8>)
    requires
        lex_le_bytes(a, b),
        lex_le_bytes(b, c),
    ensures
        lex_le_bytes(a, c),
    decreases a.len(),
{
    if a.len() > 0 && b.len() > 0 && c.len() > 0 {
        if a[0] == b[0] && b[0] == c[0] {
            lemma_lex_le_bytes_transitive(a.drop_first(), b.drop_first(), c.drop_first());
        }
    }
}

impl TotalOrder for &str {
    /// Byte-wise lexicographic order, the order `str` comparison uses.
    open spec fn le_spec(self, other: Self) -> bool {
        lex_le_bytes(self.spec_bytes(), other.spec_bytes())
    }

    proof fn lemma_total(a: Self, b: Self) {
        lemma_lex_le_bytes_total(a.spec_bytes(), b.spec_bytes());
    }

    proof fn lemma_transitive(a: Self, b: Self, c: Self) {
        lemma_lex_le_bytes_transitive(a.spec_bytes(), b.spec_bytes(), c.spec_bytes());
    }

    fn le(&self, other: &Self) -> (r: bool) {
        let a = self.as_bytes();
        let b = other.as_bytes();
        let ghost sa = self.spec_bytes();
        let ghost sb = other.spec_bytes();
        let mut i: usize = 0;
        proof {
            assert(sa.skip(0) =~= sa);
            assert(sb.skip(0) =~= sb);
        }
        while i < a.len() && i < b.len() && a[i] == b[i]
            invariant
                a@ == sa,
                b@ == sb,
                0 <= i <= sa.len(),
                0 <= i <= sb.len(),
                lex_le_bytes(sa, sb) == lex_le_bytes(sa.skip(i as int), sb.skip(i as int)),
            decreases sa.len() - i,
        {
            proof {
                assert(sa.skip(i as int).drop_first() =~= sa.skip(i + 1));
                assert(sb.skip(i as int).drop_first() =~= sb.skip(i + 1));
            }
            i = i + 1;
        }
        proof {
            assert(sa.skip(i as int).len() == 0 ==> lex_le_bytes(sa.skip(i as int), sb.skip(
                i as int,
            )));
        }
        if i == a.len() {
            // `self` ran out first (or both did): it is a prefix of `other`.
            true
        } else if i == b.len() {
            // `other` is a proper prefix of `self`.
            false
        } else {
            a[i] < b[i]
        }
    }
}

} // verus!
