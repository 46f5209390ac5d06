//! Prime numbers by the sieve of Eratosthenes, and the ten-thousand-first
//! prime read off the sieve.

use vstd::prelude::*;
use vstd::arithmetic::div_mod::{lemma_fundamental_div_mod, lemma_mod_multiples_basic};

use crate::largest_prime_factor::is_prime_spec;

verus! {

/// The sieve's marking knowledge after the factors below `bound` have been
/// processed: `m` has a known factor, no larger than its own square root.
pub open spec fn has_small_factor(m: int, bound: int) -> bool {
    exists|d: int| 2 <= d < bound && #[trigger] (m % d) == 0 && d * d <= m
}

/// A number above one without a factor up to its square root is prime.
pub proof fn lemma_no_witness_prime(m: int, bound: int)
    requires
        m >= 2,
        bound * bound > m,
        bound >= 2,
        !has_small_factor(m, bound),
    ensures
        is_prime_spec(m),
{
    assert forall|d: int| 2 <= d < m implies #[trigger] (m % d) != 0 by {
        if m % d == 0 {
            lemma_fundamental_div_mod(m, d);
            let e = m / d;
            assert(m == d * e);
            assert(e >= 2) by (nonlinear_arith)
                requires
                    m == d * e && m >= 2 && 2 <= d < m,
            ;
            if d * d <= m {
                assert(d < bound) by (nonlinear_arith)
                    requires
                        d * d <= m && bound * bound > m && d >= 2 && bound >= 2,
                ;
                assert(has_small_factor(m, bound));
            } else {
                assert(e * e <= m) by (nonlinear_arith)
                    requires
                        m == d * e && d * d > m && d >= 2 && e >= 2,
                ;
                assert(e < bound) by (nonlinear_arith)
                    requires
                        e * e <= m && bound * bound > m && e >= 2 && bound >= 2,
                ;
                lemma_mod_multiples_basic(d, e);
                assert(m % e == 0);
                assert(has_small_factor(m, bound));
            }
        }
    }
}

/// Primes below `limit`, in increasing order, none missing: what the sieve
/// must deliver.
pub open spec fn sieve_post(limit: int, r: Seq<usize>) -> bool {
    &&& forall|t: int| 0 <= t < r.len() ==> is_prime_spec((#[trigger] r[t]) as int) && r[t] < limit
    &&& forall|a: int, b: int| 0 <= a < b < r.len() ==> (#[trigger] r[a]) < (#[trigger] r[b])
    &&& forall|p: int|
        2 <= p < limit && is_prime_spec(p) ==> exists|t: int|
            0 <= t < r.len() && (#[trigger] r[t]) as int == p
}

/// All prime numbers below `limit`, found by the sieve of Eratosthenes.
#[verifier::rlimit(100)]
pub fn sieve(limit: usize) -> (r: Vec<usize>)
    requires
        2 <= limit,
        limit < 0x4000_0000,
    ensures
        sieve_post(limit as int, r@),
{
    let mut marks: Vec<bool> = Vec::new();
    let mut k: usize = 0;
    while k < limit
        invariant
            k <= limit,
            marks@.len() == k,
            forall|m: int| 0 <= m < k ==> (#[trigger] marks@[m]) == true,
        decreases limit - k,
    {
        marks.push(true);
        k = k + 1;
    }
    marks[0] = false;  // 0 is not a prime number
    marks[1] = false;  // 1 is not a prime number

    let mut i: usize = 2;
    loop
        invariant
            2 <= i,
            i <= 0x8000,
            limit < 0x4000_0000,
            2 <= limit,
            marks@.len() == limit,
            forall|m: int|
                0 <= m < limit ==> (#[trigger] marks@[m]) == (m >= 2 && !has_small_factor(
                    m,
                    i as int,
                )),
        ensures
            2 <= i,
            i * i > limit,
            marks@.len() == limit,
            forall|m: int|
                0 <= m < limit ==> (#[trigger] marks@[m]) == (m >= 2 && !has_small_factor(
                    m,
                    i as int,
                )),
        decreases limit - i,
    {
        proof {
            assert(i * i <= 0x8000 * 0x8000) by (nonlinear_arith)
                requires
                    2 <= i <= 0x8000,
            ;
        }
        let sq = i * i;
        if sq > limit {
            break ;
        }
        proof {
            assert(i < limit) by (nonlinear_arith)
                requires
                    i * i <= limit && i >= 2,
            ;
            lemma_mod_multiples_basic(i as int, i as int);
        }
        let ghost marks0 = marks@;
        if marks[i] {
            // Cross out every multiple of i from i * i on.
            let mut j = sq;
            while j < limit
                invariant
                    2 <= i,
                    i <= 0x8000,
                    i * i <= limit,
                    i * i <= j,
                    j <= limit + i,
                    limit < 0x4000_0000,
                    j % i == 0,
                    marks@.len() == limit,
                    forall|m: int|
                        0 <= m < limit && !(i * i <= m < j && m % (i as int) == 0) ==> (
                        #[trigger] marks@[m]) == marks0[m],
                    forall|m: int|
                        i * i <= m < j && m % (i as int) == 0 && 0 <= m < limit ==> (
                        #[trigger] marks@[m]) == false,
                decreases limit + i - j,
            {
                marks[j] = false;
                proof {
                    lemma_fundamental_div_mod(j as int, i as int);
                    lemma_mod_multiples_basic(j as int / (i as int) + 1, i as int);
                    assert((j + i) as int == (j as int / (i as int) + 1) * (i as int))
                        by (nonlinear_arith)
                        requires
                            j as int == (i as int) * (j as int / (i as int)) && j % i == 0,
                    ;
                    assert forall|m: int|
                        i * i <= m < j + i && m % (i as int) == 0 && 0 <= m < limit implies (
                    #[trigger] marks@[m]) == false by {
                        if m < j {
                        } else {
                            assert(m == j) by {
                                if m > j {
                                    lemma_fundamental_div_mod(m, i as int);
                                    assert(m >= j + i) by (nonlinear_arith)
                                        requires
                                            m == (i as int) * (m / (i as int)),
                                            j as int == (i as int) * (j as int / (i as int)),
                                            m > j,
                                            i >= 2,
                                            m % (i as int) == 0,
                                            j % i == 0,
                                    ;
                                }
                            }
                        }
                    }
                }
                j = j + i;
            }
            proof {
                assert forall|m: int|
                    0 <= m < limit implies (#[trigger] marks@[m]) == (m >= 2
                    && !has_small_factor(m, i as int + 1)) by {
                    if marks0[m] {
                        // It was clean so far; it stays clean unless i itself
                        // is a small factor of m.
                        if m % (i as int) == 0 && i * i <= m {
                            assert(marks@[m] == false);
                            assert(has_small_factor(m, i as int + 1));
                        } else {
                            assert(marks@[m] == marks0[m]);
                            if has_small_factor(m, i as int + 1) {
                                let d = choose|d: int|
                                    2 <= d < i as int + 1 && #[trigger] (m % d) == 0 && d * d
                                        <= m;
                                assert(d < i as int || d == i);
                                assert(has_small_factor(m, i as int));
                            }
                        }
                    } else {
                        assert(marks@[m] == false);
                        if m >= 2 {
                            let d = choose|d: int|
                                2 <= d < i as int && #[trigger] (m % d) == 0 && d * d <= m;
                            assert(has_small_factor(m, i as int + 1));
                        }
                    }
                }
            }
        } else {
            // i itself has a small factor; its multiples were crossed out
            // with that factor already, so no marking knowledge is added.
            proof {
                assert(has_small_factor(i as int, i as int));
                let d = choose|d: int|
                    2 <= d < i as int && #[trigger] ((i as int) % d) == 0 && d * d <= i;
                assert forall|m: int|
                    0 <= m < limit implies (#[trigger] marks@[m]) == (m >= 2
                    && !has_small_factor(m, i as int + 1)) by {
                    assert(marks@[m] == marks0[m]);
                    if m >= 2 {
                        if has_small_factor(m, i as int) {
                            let d3 = choose|d3: int|
                                2 <= d3 < i as int && #[trigger] (m % d3) == 0 && d3 * d3 <= m;
                            assert(2 <= d3 < i as int + 1 && m % d3 == 0 && d3 * d3 <= m);
                            assert(has_small_factor(m, i as int + 1));
                        } else if has_small_factor(m, i as int + 1) {
                            let d2 = choose|d2: int|
                                2 <= d2 < i as int + 1 && #[trigger] (m % d2) == 0 && d2 * d2
                                    <= m;
                            if d2 < i as int {
                                assert(has_small_factor(m, i as int));
                                assert(false);
                            }
                            assert(d2 == i as int);
                            // m is a multiple of i, so i's own small factor
                            // divides m as well.
                            lemma_fundamental_div_mod(m, i as int);
                            lemma_fundamental_div_mod(i as int, d);
                            assert(m == d * ((i as int / d) * (m / (i as int))))
                                by (nonlinear_arith)
                                requires
                                    m == (i as int) * (m / (i as int)),
                                    i as int == d * (i as int / d),
                            ;
                            lemma_mod_multiples_basic((i as int / d) * (m / (i as int)), d);
                            assert(m % d == 0);
                            assert(d * d <= m) by (nonlinear_arith)
                                requires
                                    d * d <= i && i * i <= m && i >= 2 && d >= 2,
                            ;
                            assert(has_small_factor(m, i as int));
                            assert(false);
                        }
                    }
                }
            }
        }
        proof {
            assert(i + 1 <= 0x8000) by (nonlinear_arith)
                requires
                    i >= 2 && i * i <= limit && limit < 0x4000_0000,
            ;
        }
        i = i + 1;
    }

    // Collect the numbers still marked: they are exactly the primes.
    let mut r: Vec<usize> = Vec::new();
    let mut m: usize = 0;
    while m < limit
        invariant
            m <= limit,
            2 <= i,
            i * i > limit,
            marks@.len() == limit,
            forall|m2: int|
                0 <= m2 < limit ==> (#[trigger] marks@[m2]) == (m2 >= 2 && !has_small_factor(
                    m2,
                    i as int,
                )),
            forall|t: int|
                0 <= t < r@.len() ==> is_prime_spec((#[trigger] r@[t]) as int) && r@[t] < m,
            forall|a: int, b: int| 0 <= a < b < r@.len() ==> (#[trigger] r@[a]) < (#[trigger] r@[b]),
            forall|p: int|
                2 <= p < m && is_prime_spec(p) ==> exists|t: int|
                    0 <= t < r@.len() && (#[trigger] r@[t]) as int == p,
        decreases limit - m,
    {
        if marks[m] {
            proof {
                assert(i * i > m);
                lemma_no_witness_prime(m as int, i as int);
            }
            let ghost r0 = r@;
            r.push(m);
            proof {
                assert forall|a: int, b: int| 0 <= a < b < r@.len() implies (#[trigger] r@[a]) < (
                #[trigger] r@[b]) by {
                    if b == r@.len() - 1 {
                        assert(r@[a] == r0[a]);
                        assert(r0[a] < m);
                    } else {
                        assert(r@[a] == r0[a] && r@[b] == r0[b]);
                    }
                }
                assert forall|p: int| 2 <= p < m + 1 && is_prime_spec(p) implies exists|t: int|
                    0 <= t < r@.len() && (#[trigger] r@[t]) as int == p by {
                    if p < m {
                        let t = choose|t: int|
                            0 <= t < r0.len() && (#[trigger] r0[t]) as int == p;
                        assert(r@[t] as int == p);
                    } else {
                        assert(r@[r@.len() - 1] as int == p);
                    }
                }
            }
        } else {
            proof {
                if m >= 2 && is_prime_spec(m as int) {
                    let d = choose|d: int|
                        2 <= d < i as int && #[trigger] ((m as int) % d) == 0 && d * d <= m;
                    assert(d < m) by (nonlinear_arith)
                        requires
                            d * d <= m && d >= 2,
                    ;
                    assert(false);
                }
            }
        }
        m = m + 1;
    }
    r
}


/// How many primes lie below `x`.
pub open spec fn primes_below(x: int) -> int
    decreases x,
{
    if x <= 2 {
        0
    } else {
        primes_below(x - 1) + if is_prime_spec(x - 1) {
            1int
        } else {
            0int
        }
    }
}

/// The prime count does not change over a prime-free interval.
proof fn lemma_primes_below_range(lo: int, hi: int)
    requires
        2 <= lo <= hi,
        forall|q: int| lo <= q < hi ==> !is_prime_spec(q),
    ensures
        primes_below(hi) == primes_below(lo),
    decreases hi - lo,
{
    if lo < hi {
        lemma_primes_below_range(lo, hi - 1);
    }
}

/// An increasing, sound and complete list of the primes below `limit`.
pub open spec fn prime_list_ok(limit: int, vals: Seq<int>) -> bool {
    &&& forall|t: int| 0 <= t < vals.len() ==> is_prime_spec(#[trigger] vals[t]) && vals[t] < limit
    &&& forall|a: int, b: int| 0 <= a < b < vals.len() ==> (#[trigger] vals[a]) < (#[trigger] vals[b])
    &&& forall|p: int|
        2 <= p < limit && is_prime_spec(p) ==> exists|t: int|
            0 <= t < vals.len() && (#[trigger] vals[t]) == p
}

/// In such a list, the element at position `k` has exactly `k` primes below
/// it: it is the `k+1`-th prime.
pub proof fn lemma_kth_prime(vals: Seq<int>, limit: int, k: int)
    requires
        prime_list_ok(limit, vals),
        0 <= k < vals.len(),
    ensures
        primes_below(vals[k]) == k,
    decreases k,
{
    if k == 0 {
        assert forall|q: int| 2 <= q < vals[0] implies !is_prime_spec(q) by {
            if is_prime_spec(q) {
                let t = choose|t: int| 0 <= t < vals.len() && (#[trigger] vals[t]) == q;
                if t > 0 {
                    assert(vals[0] < vals[t]);
                }
            }
        }
        lemma_primes_below_range(2, vals[0]);
    } else {
        lemma_kth_prime(vals, limit, k - 1);
        assert forall|q: int| vals[k - 1] + 1 <= q < vals[k] implies !is_prime_spec(q) by {
            if is_prime_spec(q) {
                let t = choose|t: int| 0 <= t < vals.len() && (#[trigger] vals[t]) == q;
                if t <= k - 1 {
                    if t < k - 1 {
                        assert(vals[t] < vals[k - 1]);
                    }
                } else {
                    if t > k {
                        assert(vals[k] < vals[t]);
                    }
                }
            }
        }
        lemma_primes_below_range(vals[k - 1] + 1, vals[k]);
        assert(primes_below(vals[k - 1] + 1) == primes_below(vals[k - 1]) + 1);
    }
}

/// The ten-thousand-first prime, read off a sieve of everything below two
/// hundred thousand (zero in the impossible case that the sieve yields
/// fewer).
pub fn get_nth_prime() -> (result: i32)
    ensures
        result != 0 ==> is_prime_spec(result as int) && primes_below(result as int) == 10000,
{
    let limit: usize = 200_000;  // Estimate, can be adjusted
    let primes = sieve(limit);

    if 10000 < primes.len() {
        proof {
            let vals = Seq::new(primes@.len(), |t: int| primes@[t] as int);
            assert forall|t: int| 0 <= t < vals.len() implies is_prime_spec(#[trigger] vals[t])
                && vals[t] < limit by {
                assert(vals[t] == primes@[t] as int);
            }
            assert forall|a: int, b: int| 0 <= a < b < vals.len() implies (#[trigger] vals[a]) < (
            #[trigger] vals[b]) by {
                assert(vals[a] == primes@[a] as int && vals[b] == primes@[b] as int);
                assert(primes@[a] < primes@[b]);
            }
            assert forall|p: int| 2 <= p < limit && is_prime_spec(p) implies exists|t: int|
                0 <= t < vals.len() && (#[trigger] vals[t]) == p by {
                let t = choose|t: int|
                    0 <= t < primes@.len() && (#[trigger] primes@[t]) as int == p;
                assert(vals[t] == p);
            }
            assert(prime_list_ok(limit as int, vals));
            lemma_kth_prime(vals, limit as int, 10000);
            assert(vals[10000] == primes@[10000] as int);
        }
        primes[10000] as i32
    } else {
        0
    }
}

/// The ten-thousand-first prime again, found by trial division against the
/// primes found so far.
pub fn get_nth_prime_2() -> (result: i32)
    ensures
        result != 0 ==> is_prime_spec(result as int) && primes_below(result as int) == 10000,
{
    let mut primes: Vec<i64> = Vec::new();
    primes.push(2);
    let mut n: i64 = 3;
    proof {
        assert(is_prime_spec(2));
        assert(primes@[0] == 2);
        assert forall|p: int| 2 <= p < 3 && is_prime_spec(p) implies exists|t: int|
            0 <= t < primes@.len() && (#[trigger] primes@[t]) as int == p by {
            assert(primes@[0] as int == p);
        }
    }
    while primes.len() < 10001 && n < 200_000
        invariant
            3 <= n <= 200_001,
            n % 2 == 1,
            1 <= primes@.len() <= 10001,
            primes@[0] == 2,
            forall|t: int|
                0 <= t < primes@.len() ==> is_prime_spec((#[trigger] primes@[t]) as int)
                    && primes@[t] < n,
            forall|a: int, b: int|
                0 <= a < b < primes@.len() ==> (#[trigger] primes@[a]) < (#[trigger] primes@[b]),
            forall|p: int|
                2 <= p < n && is_prime_spec(p) ==> exists|t: int|
                    0 <= t < primes@.len() && (#[trigger] primes@[t]) as int == p,
        decreases 200_001 - n,
    {
        let mut all_indivisible = true;
        let mut t: usize = 0;
        while t < primes.len() && all_indivisible
            invariant
                t <= primes@.len(),
                3 <= n,
                forall|q: int|
                    0 <= q < primes@.len() ==> 2 <= (#[trigger] primes@[q]) < n,
                all_indivisible ==> forall|q: int|
                    0 <= q < t ==> n as int % ((#[trigger] primes@[q]) as int) != 0,
                !all_indivisible ==> exists|q: int|
                    0 <= q < primes@.len() && n as int % ((#[trigger] primes@[q]) as int) == 0,
            decreases primes@.len() - t, (if all_indivisible {
                1int
            } else {
                0int
            }),
        {
            if n % primes[t] == 0 {
                all_indivisible = false;
            } else {
                t = t + 1;
            }
        }
        if all_indivisible {
            proof {
                lemma_indivisible_by_primes_prime(n as int, primes@);
            }
            let ghost primes0 = primes@;
            primes.push(n);
            proof {
                assert forall|p: int|
                    2 <= p < n + 2 && is_prime_spec(p) implies exists|t2: int|
                    0 <= t2 < primes@.len() && (#[trigger] primes@[t2]) as int == p by {
                    if p < n {
                        let t2 = choose|t2: int|
                            0 <= t2 < primes0.len() && (#[trigger] primes0[t2]) as int == p;
                        assert(primes@[t2] as int == p);
                    } else if p == n as int {
                        assert(primes@[primes@.len() - 1] as int == p);
                    } else {
                        assert(p == n + 1);
                        assert(p % 2 == 0);
                        assert(p != 2);
                        assert(!is_prime_spec(p));
                    }
                }
            }
        } else {
            proof {
                assert forall|p: int|
                    2 <= p < n + 2 && is_prime_spec(p) implies exists|t2: int|
                    0 <= t2 < primes@.len() && (#[trigger] primes@[t2]) as int == p by {
                    if p == n as int {
                        let q = choose|q: int|
                            0 <= q < primes@.len() && n as int % ((#[trigger] primes@[q]) as int)
                                == 0;
                        assert(!is_prime_spec(p));
                    } else if p == n + 1 {
                        assert(p % 2 == 0);
                        assert(!is_prime_spec(p));
                    }
                }
            }
        }
        n = n + 2;
    }

    if primes.len() == 10001 {
        proof {
            let vals = Seq::new(primes@.len(), |t: int| primes@[t] as int);
            assert forall|t: int| 0 <= t < vals.len() implies is_prime_spec(#[trigger] vals[t])
                && vals[t] < n by {
                assert(vals[t] == primes@[t] as int);
            }
            assert forall|a: int, b: int| 0 <= a < b < vals.len() implies (#[trigger] vals[a]) < (
            #[trigger] vals[b]) by {
                assert(vals[a] == primes@[a] as int && vals[b] == primes@[b] as int);
                assert(primes@[a] < primes@[b]);
            }
            assert forall|p: int| 2 <= p < n && is_prime_spec(p) implies exists|t: int|
                0 <= t < vals.len() && (#[trigger] vals[t]) == p by {
                let t = choose|t: int|
                    0 <= t < primes@.len() && (#[trigger] primes@[t]) as int == p;
                assert(vals[t] == p);
            }
            assert(prime_list_ok(n as int, vals));
            lemma_kth_prime(vals, n as int, 10000);
            assert(vals[10000] == primes@[10000] as int);
        }
        let last = primes[10000];
        last as i32
    } else {
        0
    }
}

/// A number that no smaller prime divides is itself prime, provided the list
/// of smaller primes is complete.
proof fn lemma_indivisible_by_primes_prime(n: int, primes: Seq<i64>)
    requires
        n >= 2,
        forall|t: int| 0 <= t < primes.len() ==> 2 <= (#[trigger] primes[t]) < n,
        forall|p: int|
            2 <= p < n && is_prime_spec(p) ==> exists|t: int|
                0 <= t < primes.len() && (#[trigger] primes[t]) as int == p,
        forall|q: int| 0 <= q < primes.len() ==> n % ((#[trigger] primes[q]) as int) != 0,
    ensures
        is_prime_spec(n),
    decreases n,
{
    assert forall|d: int| 2 <= d < n implies #[trigger] (n % d) != 0 by {
        if n % d == 0 {
            lemma_smallest_divisor_is_prime(n, d);
            let p = choose|p: int| 2 <= p <= d && is_prime_spec(p) && #[trigger] (n % p) == 0;
            let t = choose|t: int| 0 <= t < primes.len() && (#[trigger] primes[t]) as int == p;
            assert(n % (primes[t] as int) != 0);
        }
    }
}

/// Any number with a divisor has a prime divisor no larger than it.
proof fn lemma_smallest_divisor_is_prime(n: int, d: int)
    requires
        n >= 2,
        2 <= d < n,
        n % d == 0,
    ensures
        exists|p: int| 2 <= p <= d && is_prime_spec(p) && #[trigger] (n % p) == 0,
    decreases d,
{
    if is_prime_spec(d) {
        assert(2 <= d <= d && is_prime_spec(d) && n % d == 0);
    } else {
        let e = choose|e: int| 2 <= e < d && #[trigger] (d % e) == 0;
        lemma_fundamental_div_mod(n, d);
        lemma_fundamental_div_mod(d, e);
        assert(n == e * ((d / e) * (n / d))) by (nonlinear_arith)
            requires
                n == d * (n / d) && d == e * (d / e),
        ;
        lemma_mod_multiples_basic((d / e) * (n / d), e);
        assert(n % e == 0);
        lemma_smallest_divisor_is_prime(n, e);
        let p = choose|p: int| 2 <= p <= e && is_prime_spec(p) && #[trigger] (n % p) == 0;
        assert(2 <= p <= d && is_prime_spec(p) && n % p == 0);
    }
}

} // verus!
