//! The sum of the decimal digits of n-factorial, computed over
//! arbitrary-precision naturals.

use vstd::prelude::*;

use num_bigint::BigUint;

use crate::big_number::{
    big_decimal_digits, big_from_u64, big_mul, big_nat, dec_digits, lemma_dec_digits_range,
};

verus! {

/// n-factorial.
pub open spec fn fact(n: nat) -> nat
    decreases n,
{
    if n == 0 {
        1
    } else {
        n * fact((n - 1) as nat)
    }
}

/// The sum of the decimal digits of `n`.
pub open spec fn digit_sum(n: nat) -> nat
    decreases n,
{
    if n < 10 {
        n
    } else {
        digit_sum(n / 10) + n % 10
    }
}

/// The digit values of a decimal rendering.
pub open spec fn byte_digit_sum(s: Seq<u8>) -> int
    decreases s.len(),
{
    if s.len() == 0 {
        0
    } else {
        byte_digit_sum(s.drop_last()) + (s.last() - 48)
    }
}

/// Summing the rendered digits gives the digit sum of the number.
pub proof fn lemma_byte_digit_sum(n: nat)
    ensures
        byte_digit_sum(dec_digits(n)) == digit_sum(n),
    decreases n,
{
    assert(byte_digit_sum(Seq::<u8>::empty()) == 0);
    if n < 10 {
        assert(dec_digits(n).drop_last() =~= Seq::<u8>::empty());
    } else {
        lemma_byte_digit_sum(n / 10);
        assert(dec_digits(n).drop_last() =~= dec_digits(n / 10));
    }
}

/// Digit values are nonnegative, so partial digit sums never exceed the
/// whole.
pub proof fn lemma_byte_digit_sum_monotone(s: Seq<u8>, a: int, b: int)
    requires
        forall|i: int| 0 <= i < s.len() ==> 48 <= #[trigger] s[i],
        0 <= a <= b <= s.len(),
    ensures
        0 <= byte_digit_sum(s.take(a)) <= byte_digit_sum(s.take(b)),
    decreases b - a, b,
{
    if a == b {
        if b > 0 {
            lemma_byte_digit_sum_monotone(s, a - 1, b - 1);
            assert(s.take(b).drop_last() =~= s.take(b - 1));
        }
    } else {
        lemma_byte_digit_sum_monotone(s, a, b - 1);
        assert(s.take(b).drop_last() =~= s.take(b - 1));
    }
}

/// The factorial of `n`, as a big number.
fn factorial(n: u64) -> (r: BigUint)
    requires
        n < u64::MAX,
    ensures
        big_nat(r) == fact(n as nat),
{
    let mut acc = big_from_u64(1);
    let mut i: u64 = 1;
    while i <= n
        invariant
            n < u64::MAX,
            1 <= i <= n + 1,
            big_nat(acc) == fact((i - 1) as nat),
        decreases n + 1 - i,
    {
        let factor = big_from_u64(i);
        let ghost prev = big_nat(acc);
        acc = big_mul(&acc, &factor);
        proof {
            let ii = i as nat;
            assert(ii >= 1);
            assert(fact(ii) == ii * fact((ii - 1) as nat));
            assert(big_nat(acc) == prev * ii);
            assert(prev == fact((ii - 1) as nat));
            assert(big_nat(acc) == fact(ii));
        }
        i = i + 1;
    }
    acc
}

/// The sum of the decimal digits of a big number.
fn sum_of_digits(num: &BigUint) -> (sum: u64)
    requires
        digit_sum(big_nat(*num)) <= u64::MAX,
    ensures
        sum == digit_sum(big_nat(*num)),
{
    let digits = big_decimal_digits(num);
    proof {
        lemma_dec_digits_range(big_nat(*num));
        lemma_byte_digit_sum(big_nat(*num));
    }
    let mut sum: u64 = 0;
    let mut i: usize = 0;
    while i < digits.len()
        invariant
            i <= digits@.len(),
            digits@ == dec_digits(big_nat(*num)),
            digit_sum(big_nat(*num)) <= u64::MAX,
            byte_digit_sum(digits@) == digit_sum(big_nat(*num)),
            forall|k: int| 0 <= k < digits@.len() ==> 48 <= #[trigger] digits@[k] <= 57,
            sum == byte_digit_sum(digits@.take(i as int)),
        decreases digits@.len() - i,
    {
        proof {
            assert(digits@.take(i + 1).drop_last() =~= digits@.take(i as int));
            assert(digits@.take(i + 1).last() == digits@[i as int]);
            lemma_byte_digit_sum_monotone(digits@, i + 1, digits@.len() as int);
            assert(digits@.take(digits@.len() as int) =~= digits@);
        }
        sum = sum + ((digits[i] - 48) as u64);
        i = i + 1;
    }
    proof {
        assert(digits@.take(i as int) =~= digits@);
    }
    sum
}

/// The sum of the decimal digits of n-factorial.
pub fn factorial_digit_sum(n: u64) -> (sum: u64)
    requires
        n < u64::MAX,
        digit_sum(fact(n as nat)) <= u64::MAX,
    ensures
        sum == digit_sum(fact(n as nat)),
{
    let f = factorial(n);
    let sum = sum_of_digits(&f);
    sum
}

} // verus!
