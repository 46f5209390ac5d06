//! The largest prime that divides a number and is no larger than its square
//! root, found by trial division.

use vstd::prelude::*;
use vstd::arithmetic::div_mod::{lemma_fundamental_div_mod, lemma_mod_multiples_basic};

verus! {

/// `n` is prime: at least two, with no divisor strictly between one and
/// itself.
pub open spec fn is_prime_spec(n: int) -> bool {
    n >= 2 && forall|d: int| 2 <= d < n ==> #[trigger] (n % d) != 0
}

/// A number with no divisor up to its square root has none at all.
pub proof fn lemma_no_small_factor_prime(n: int, i: int)
    requires
        n >= 2,
        i >= 2,
        i * i > n,
        forall|d: int| 2 <= d < i ==> #[trigger] (n % d) != 0,
    ensures
        is_prime_spec(n),
{
    assert forall|d: int| 2 <= d < n implies #[trigger] (n % d) != 0 by {
        if n % d == 0 {
            lemma_fundamental_div_mod(n, d);
            let e = n / d;
            assert(n == d * e + n % d);
            assert(n == d * e);
            assert(e >= 2) by (nonlinear_arith)
                requires
                    n == d * e && n >= 2 && 2 <= d < n,
            ;
            if d >= i {
                if e >= i {
                    assert(d * e >= i * i) by (nonlinear_arith)
                        requires
                            d >= i && e >= i && i >= 2,
                    ;
                    assert(false);
                }
                lemma_mod_multiples_basic(d, e);
                assert((d * e) % e == 0);
                assert(n % e == 0);
                assert(false);
            }
            assert(n % d != 0);
        }
    }
}

/// Trial division primality test.
pub fn is_prime(n: u64) -> (r: bool)
    requires
        n < 0xFFFF_FFFF * 0xFFFF_FFFF,
    ensures
        r == is_prime_spec(n as int),
{
    if n < 2 {
        return false;
    } else if n == 2 {
        return true;
    }

    let mut i: u64 = 2;
    loop
        invariant
            2 <= i,
            i <= 0xFFFF_FFFF,
            n < 0xFFFF_FFFF * 0xFFFF_FFFF,
            2 < n,
            forall|d: int| 2 <= d < i ==> #[trigger] ((n as int) % d) != 0,
        ensures
            2 <= i,
            i * i > n,
            forall|d: int| 2 <= d < i ==> #[trigger] ((n as int) % d) != 0,
        decreases n - i,
    {
        proof {
            assert(i * i <= 0xFFFF_FFFF * 0xFFFF_FFFF) by (nonlinear_arith)
                requires
                    2 <= i <= 0xFFFF_FFFF,
            ;
        }
        let sq = i * i;
        if sq > n {
            break ;
        }
        if n % i == 0 {
            proof {
                assert(i < n) by (nonlinear_arith)
                    requires
                        i * i <= n && i >= 2,
                ;
                assert(((n as int) % (i as int)) == 0);
            }
            return false;
        }
        proof {
            assert(i + 1 <= 0xFFFF_FFFF && i < n) by (nonlinear_arith)
                requires
                    i * i <= n && n < 0xFFFF_FFFF * 0xFFFF_FFFF && i >= 2,
            ;
        }
        i = i + 1;
    }
    proof {
        lemma_no_small_factor_prime(n as int, i as int);
    }
    true
}

/// The largest prime factor of `n` not exceeding the square root of `n`,
/// or zero when no prime up to the square root divides `n`.
pub fn find_largest_prime_factor(n: u64) -> (result: u64)
    requires
        n < 0xFFFF_FFFF * 0xFFFF_FFFF,
    ensures
        result != 0 ==> is_prime_spec(result as int) && n % result == 0 && result * result <= n,
        (forall|p: int|
            2 <= p && p * p <= n && is_prime_spec(p) && (n as int) % p == 0 ==> p <= result),
{
    let mut result: u64 = 0;
    let mut factor: u64 = 2;
    loop
        invariant
            2 <= factor,
            factor <= 0xFFFF_FFFF,
            n < 0xFFFF_FFFF * 0xFFFF_FFFF,
            result == 0 || (is_prime_spec(result as int) && n % result == 0 && result * result
                <= n),
            forall|p: int|
                2 <= p < factor && p * p <= n && is_prime_spec(p) && (n as int) % p == 0 ==> p
                    <= result,
        ensures
            factor * factor > n,
            result == 0 || (is_prime_spec(result as int) && n % result == 0 && result * result
                <= n),
            forall|p: int|
                2 <= p < factor && p * p <= n && is_prime_spec(p) && (n as int) % p == 0 ==> p
                    <= result,
        decreases n - factor,
    {
        proof {
            assert(factor * factor <= 0xFFFF_FFFF * 0xFFFF_FFFF) by (nonlinear_arith)
                requires
                    2 <= factor <= 0xFFFF_FFFF,
            ;
        }
        let sq = factor * factor;
        if sq > n {
            break ;
        }
        if n % factor == 0 && is_prime(factor) {
            result = factor;
        }
        proof {
            assert(factor + 1 <= 0xFFFF_FFFF && factor < n) by (nonlinear_arith)
                requires
                    factor * factor <= n && n < 0xFFFF_FFFF * 0xFFFF_FFFF && factor >= 2,
            ;
        }
        factor = factor + 1;
    }
    proof {
        assert forall|p: int|
            2 <= p && p * p <= n && is_prime_spec(p) && (n as int) % p == 0 implies p <= result by {
            if p >= factor {
                assert(p * p >= factor * factor) by (nonlinear_arith)
                    requires
                        p >= factor && factor >= 2,
                ;
            }
        }
    }
    result
}

} // verus!
