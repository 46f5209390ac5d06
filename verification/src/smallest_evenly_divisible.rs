//! The smallest positive number that every number from 1 to a bound divides:
//! once by walking the multiples of the bound, once by folding least common
//! multiples.

use vstd::prelude::*;
use vstd::arithmetic::div_mod::lemma_mod_multiples_basic;

verus! {

/// Every number from 1 to `biggest` divides `number`.
pub open spec fn all_divide(number: int, biggest: int) -> bool {
    forall|k: int| 1 <= k <= biggest ==> #[trigger] (number % k) == 0
}

/// Whether every number from 1 to `biggest` divides `number`.
pub fn is_divisible(number: u64, biggest: i32) -> (divisible: bool)
    requires
        1 <= biggest < i32::MAX,
    ensures
        divisible == all_divide(number as int, biggest as int),
{
    let mut divisible = true;
    let mut i: i32 = 1;
    let mut early_out = false;
    while i <= biggest && !early_out
        invariant
            1 <= i <= biggest + 1,
            1 <= biggest < i32::MAX,
            !early_out ==> divisible,
            !early_out ==> (forall|k: int| 1 <= k < i ==> #[trigger] ((number as int) % k) == 0),
            early_out ==> !divisible && !all_divide(number as int, biggest as int),
        decreases biggest + 1 - i, (if early_out {
            0int
        } else {
            1int
        }),
    {
        if number % (i as u64) != 0 {
            divisible = false;
            early_out = true;
        } else {
            i = i + 1;
        }
    }
    divisible
}

/// The smallest positive number that all of 1 to `biggest` divide, found by
/// stepping through the multiples of `biggest`.  The requirement says only
/// that some such number fits the machine word; the first multiple with the
/// property is returned.
pub fn find_smallest_evenly_divisible_number(biggest: i32) -> (number: u64)
    requires
        1 <= biggest < i32::MAX,
        exists|m: int|
            0 < m <= u64::MAX && #[trigger] (m % (biggest as int)) == 0 && all_divide(
                m,
                biggest as int,
            ),
    ensures
        all_divide(number as int, biggest as int),
        number as int % (biggest as int) == 0,
        forall|v: int| 1 <= v < number ==> !all_divide(v, biggest as int),
{
    let ghost m0 = choose|m: int|
        0 < m <= u64::MAX && #[trigger] (m % (biggest as int)) == 0 && all_divide(
            m,
            biggest as int,
        );
    let mut number = biggest as u64;
    proof {
        lemma_mod_multiples_basic(1, biggest as int);
        assert((1 * (biggest as int)) == biggest as int) by (nonlinear_arith);
        vstd::arithmetic::div_mod::lemma_fundamental_div_mod(m0, biggest as int);
        let q0 = m0 / (biggest as int);
        assert(biggest <= m0) by (nonlinear_arith)
            requires
                m0 == (biggest as int) * q0,
                m0 > 0,
                biggest >= 1,
        ;
        assert forall|v: int| 1 <= v < biggest implies !all_divide(v, biggest as int) by {
            vstd::arithmetic::div_mod::lemma_small_mod(v as nat, biggest as nat);
            if all_divide(v, biggest as int) {
                assert(v % (biggest as int) == 0);
            }
        }
    }
    loop
        invariant_except_break
            1 <= biggest < i32::MAX,
            0 < m0 <= u64::MAX,
            m0 % (biggest as int) == 0,
            all_divide(m0, biggest as int),
            number >= biggest,
            number as int % (biggest as int) == 0,
            number <= m0,
            forall|v: int| 1 <= v < number ==> !all_divide(v, biggest as int),
        ensures
            all_divide(number as int, biggest as int),
            number as int % (biggest as int) == 0,
            forall|v: int| 1 <= v < number ==> !all_divide(v, biggest as int),
        decreases m0 - number,
    {
        if is_divisible(number, biggest) {
            break ;
        }
        proof {
            // Any value below the next multiple either fails at `biggest`
            // itself or is one of the already excluded ones.
            assert(number < m0);
            let q = (number as int) / (biggest as int);
            let q0 = m0 / (biggest as int);
            vstd::arithmetic::div_mod::lemma_fundamental_div_mod(
                number as int,
                biggest as int,
            );
            vstd::arithmetic::div_mod::lemma_fundamental_div_mod(m0, biggest as int);
            assert(q < q0) by (nonlinear_arith)
                requires
                    number as int == (biggest as int) * q,
                    m0 == (biggest as int) * q0,
                    number < m0,
                    biggest >= 1,
            ;
            assert(number + biggest <= m0) by (nonlinear_arith)
                requires
                    number as int == (biggest as int) * q,
                    m0 == (biggest as int) * q0,
                    q < q0,
                    biggest >= 1,
            ;
            lemma_mod_multiples_basic(q + 1, biggest as int);
            assert(number as int + biggest == (q + 1) * (biggest as int)) by (nonlinear_arith)
                requires
                    number as int == (biggest as int) * q,
            ;
            assert(((q + 1) * (biggest as int)) % (biggest as int) == 0);
            assert forall|v: int| 1 <= v < number + biggest implies !all_divide(
                v,
                biggest as int,
            ) by {
                if v >= number && all_divide(v, biggest as int) {
                    assert(v % (biggest as int) == 0);
                    vstd::arithmetic::div_mod::lemma_fundamental_div_mod(v, biggest as int);
                    let qv = v / (biggest as int);
                    assert(qv == q) by (nonlinear_arith)
                        requires
                            v == (biggest as int) * qv,
                            number as int == (biggest as int) * q,
                            (biggest as int) * q <= v < (biggest as int) * q + biggest,
                            biggest >= 1,
                    ;
                    assert(v == number as int);
                }
            }
        }
        number = number + biggest as u64;
    }

    number
}

/// The greatest common divisor, by the Euclidean algorithm.
pub open spec fn gcd_spec(a: int, b: int) -> int
    decreases b when b >= 0
{
    if b == 0 {
        a
    } else {
        gcd_spec(b, a % b)
    }
}

/// The least common multiple derived from it.
pub open spec fn lcm_spec(a: int, b: int) -> int {
    a * (b / gcd_spec(a, b))
}

/// The divisor is positive when either argument is.
pub proof fn lemma_gcd_pos(a: int, b: int)
    requires
        a > 0,
        b >= 0,
    ensures
        gcd_spec(a, b) > 0,
    decreases b,
{
    if b != 0 {
        vstd::arithmetic::div_mod::lemma_mod_bound(a, b);
        lemma_gcd_pos(b, a % b);
    }
}

/// The greatest common divisor.
pub fn gcd(a: u64, b: u64) -> (r: u64)
    ensures
        r as int == gcd_spec(a as int, b as int),
    decreases b,
{
    if b == 0 {
        a
    } else {
        gcd(b, a % b)
    }
}

/// The least common multiple, as `a * (b / gcd(a, b))`.
pub fn lcm(a: u64, b: u64) -> (r: u64)
    requires
        a > 0,
        0 <= lcm_spec(a as int, b as int) <= u64::MAX,
    ensures
        r as int == lcm_spec(a as int, b as int),
{
    proof {
        lemma_gcd_pos(a as int, b as int);
    }
    let g = gcd(a, b);
    a * (b / g)
}

/// The fold of least common multiples of 1 to `k`.
pub open spec fn lcm_all(k: int) -> int
    decreases k,
{
    if k <= 1 {
        1
    } else {
        lcm_spec(lcm_all(k - 1), k)
    }
}

/// The smallest common multiple computed as a fold of least common
/// multiples over 1 to `biggest`.
pub fn find_smallest_evenly_divisible_number_2(biggest: u32) -> (r: u64)
    requires
        biggest < u32::MAX,
        forall|k: int| 1 <= k <= biggest ==> 0 < #[trigger] lcm_all(k) <= u64::MAX,
    ensures
        r as int == lcm_all(biggest as int),
{
    let mut acc: u64 = 1;
    let mut x: u32 = 1;
    while x <= biggest
        invariant
            1 <= x <= biggest + 1,
            biggest < u32::MAX,
            forall|k: int| 1 <= k <= biggest ==> 0 < #[trigger] lcm_all(k) <= u64::MAX,
            acc as int == lcm_all(if x as int - 1 < 1 {
                1int
            } else {
                x as int - 1
            }),
            acc > 0,
        decreases biggest + 1 - x,
    {
        proof {
            if x >= 2 {
                assert(lcm_all(x as int) == lcm_spec(lcm_all(x as int - 1), x as int));
                assert(0 < lcm_all(x as int) <= u64::MAX);
            } else {
                assert(lcm_all(1) == 1);
                assert(lcm_spec(1, 1) == 1) by {
                    assert(gcd_spec(1, 1) == gcd_spec(1, 0));
                }
            }
        }
        acc = lcm(acc, x as u64);
        x = x + 1;
    }
    acc
}

} // verus!
