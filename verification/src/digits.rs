//! Digit sequences of numbers in a given base, and palindrome checks on
//! them.

use vstd::prelude::*;
use vstd::arithmetic::div_mod::{
    lemma_div_is_strictly_smaller, lemma_div_non_zero, lemma_fundamental_div_mod, lemma_small_mod,
};

verus! {

/// The digits of `n` in base `b`, least significant first (a single zero
/// digit for zero).
pub open spec fn digits_in_base(n: nat, b: nat) -> Seq<u64>
    decreases n when b >= 2 via digits_in_base_decreases
{
    if n < b {
        seq![n as u64]
    } else {
        seq![(n % b) as u64] + digits_in_base(n / b, b)
    }
}

#[via_fn]
proof fn digits_in_base_decreases(n: nat, b: nat) {
    if n >= b {
        lemma_div_is_strictly_smaller(n as int, b as int);
    }
}

/// `n` reads the same both ways when written in base `b`.
pub open spec fn is_palindrome_in_base(n: nat, b: nat) -> bool {
    digits_in_base(n, b) == digits_in_base(n, b).reverse()
}

/// The digits of `n` in base `base`, least significant first.
pub fn extract_digits(n: u64, base: u64) -> (v: Vec<u64>)
    requires
        base >= 2,
    ensures
        v@ == digits_in_base(n as nat, base as nat),
{
    let mut v: Vec<u64> = Vec::new();
    let mut x = n;
    v.push(x % base);
    x = x / base;
    proof {
        if n < base {
            lemma_small_mod(n as nat, base as nat);
            lemma_fundamental_div_mod(n as int, base as int);
            assert((n as int) / (base as int) == 0) by (nonlinear_arith)
                requires
                    base >= 2 && (base as int) * ((n as int) / (base as int)) == 0,
            ;
            assert(digits_in_base(n as nat, base as nat) == seq![n as u64]);
            assert(v@ =~= seq![n as u64]);
        } else {
            lemma_div_non_zero(n as int, base as int);
            assert(digits_in_base(n as nat, base as nat) == seq![(n % base) as u64]
                + digits_in_base((n / base) as nat, base as nat));
            assert(v@ =~= seq![(n % base) as u64]);
            assert(digits_in_base(n as nat, base as nat) =~= v@ + digits_in_base(
                (n / base) as nat,
                base as nat,
            ));
        }
    }
    while x > 0
        invariant
            base >= 2,
            v@.len() >= 1,
            (if x > 0 {
                digits_in_base(n as nat, base as nat) == v@ + digits_in_base(
                    x as nat,
                    base as nat,
                )
            } else {
                digits_in_base(n as nat, base as nat) == v@
            }),
        decreases x,
    {
        proof {
            lemma_div_is_strictly_smaller(x as int, base as int);
            if x >= base {
                lemma_div_non_zero(x as int, base as int);
                assert(digits_in_base(x as nat, base as nat) == seq![(x % base) as u64]
                    + digits_in_base((x / base) as nat, base as nat));
            }
        }
        let ghost v0 = v@;
        let d = x % base;
        v.push(d);
        proof {
            if x < base {
                lemma_small_mod(x as nat, base as nat);
                lemma_fundamental_div_mod(x as int, base as int);
                assert((x as int) / (base as int) == 0) by (nonlinear_arith)
                    requires
                        base >= 2 && (base as int) * ((x as int) / (base as int)) == 0,
                ;
                assert(digits_in_base(x as nat, base as nat) =~= seq![x]);
                assert(v@ =~= v0 + seq![x]);
            } else {
                assert(v@ + digits_in_base((x / base) as nat, base as nat) =~= v0 + (seq![
                    (x % base) as u64,
                ] + digits_in_base((x / base) as nat, base as nat)));
            }
        }
        x = x / base;
    }
    proof {
        if n < base {
            assert(v@ =~= seq![n]);
            assert(digits_in_base(n as nat, base as nat) == seq![n]);
        }
    }
    v
}

/// Whether the digit list reads the same both ways.
pub fn digits_are_palindrome(v: &Vec<u64>) -> (r: bool)
    ensures
        r == (v@ == v@.reverse()),
{
    let n = v.len();
    let mut i: usize = 0;
    while i < n / 2
        invariant
            i <= n,
            n == v@.len(),
            forall|k: int| 0 <= k < i ==> (#[trigger] v@[k]) == v@[n - 1 - k],
        decreases n / 2 - i,
    {
        if v[i] != v[n - 1 - i] {
            proof {
                assert(v@.reverse()[i as int] == v@[n - 1 - i]);
                assert(v@ != v@.reverse());
            }
            return false;
        }
        i = i + 1;
    }
    proof {
        assert forall|k: int| 0 <= k < v@.len() implies (#[trigger] v@[k]) == v@.reverse()[k] by {
            if k < n / 2 {
            } else {
                let m = n - 1 - k;
                assert(0 <= m);
                if m < n / 2 {
                    assert(v@[m] == v@[n - 1 - m]);
                }
            }
        }
        assert(v@ =~= v@.reverse());
    }
    true
}

} // verus!
