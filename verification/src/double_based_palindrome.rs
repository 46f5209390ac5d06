//! The sum of the numbers below a bound that are palindromic both in base
//! ten and in base two.

use vstd::prelude::*;

use crate::digits::{digits_are_palindrome, digits_in_base, extract_digits, is_palindrome_in_base};

verus! {

/// Palindromic in base ten and in base two at once.
pub open spec fn is_double_palindrome(n: nat) -> bool {
    is_palindrome_in_base(n, 10) && is_palindrome_in_base(n, 2)
}

/// The sum of the double-base palindromes in `1 .. n`.
pub open spec fn double_palindrome_sum(n: int) -> int
    decreases n,
{
    if n <= 1 {
        0
    } else {
        double_palindrome_sum(n - 1) + if is_double_palindrome((n - 1) as nat) {
            n - 1
        } else {
            0int
        }
    }
}

/// Partial sums of nonnegative terms never exceed later ones.
pub proof fn lemma_double_palindrome_sum_monotone(a: int, b: int)
    requires
        a <= b,
    ensures
        double_palindrome_sum(a) <= double_palindrome_sum(b),
        0 <= double_palindrome_sum(b) || b <= 1,
    decreases b - a, b,
{
    if a < b {
        lemma_double_palindrome_sum_monotone(a, b - 1);
    } else if b > 1 {
        lemma_double_palindrome_sum_monotone(a - 1, b - 1);
    }
}

/// Whether `n` is palindromic in both bases.
fn is_double_based_palindrome(n: i32) -> (r: bool)
    requires
        n >= 1,
    ensures
        r == is_double_palindrome(n as nat),
{
    let decimal = extract_digits(n as u64, 10);
    let binary = extract_digits(n as u64, 2);
    proof {
        assert((n as u64) as nat == n as nat);
        assert(decimal@ == digits_in_base(n as nat, 10));
        assert(binary@ == digits_in_base(n as nat, 2));
    }
    let d = digits_are_palindrome(&decimal);
    let b = digits_are_palindrome(&binary);
    d && b
}

/// The sum of all numbers below `n` that are palindromic in base ten and in
/// base two.
pub fn double_based_palindrome_sum_below_n(n: i32) -> (sum: i32)
    requires
        double_palindrome_sum(n as int) <= i32::MAX,
    ensures
        sum == double_palindrome_sum(n as int),
{
    let mut sum: i32 = 0;
    let mut i: i32 = 1;
    while i < n
        invariant
            1 <= i,
            n > 1 ==> i <= n,
            n <= 1 ==> i == 1 && sum == 0,
            double_palindrome_sum(n as int) <= i32::MAX,
            sum == double_palindrome_sum(i as int),
            0 <= sum,
        decreases n - i,
    {
        proof {
            lemma_double_palindrome_sum_monotone(i as int + 1, n as int);
        }
        if is_double_based_palindrome(i) {
            sum = sum + i;
        }
        i = i + 1;
    }
    proof {
        if n > 1 {
            assert(i == n);
        } else {
            assert(i == 1);
            assert(sum == double_palindrome_sum(1));
            assert(double_palindrome_sum(n as int) == 0);
            assert(double_palindrome_sum(1) == 0);
        }
    }
    sum
}

} // verus!
