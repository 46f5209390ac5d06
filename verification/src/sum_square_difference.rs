//! The difference between the square of the sum and the sum of the squares of
//! the first hundred natural numbers.

use vstd::prelude::*;

verus! {

/// `1 + 2 + ... + n`.
pub open spec fn sum_first(n: int) -> int
    decreases n,
{
    if n <= 0 {
        0
    } else {
        sum_first(n - 1) + n
    }
}

/// `1*1 + 2*2 + ... + n*n`.
pub open spec fn sum_squares(n: int) -> int
    decreases n,
{
    if n <= 0 {
        0
    } else {
        sum_squares(n - 1) + n * n
    }
}

/// The sum of squares never exceeds the square of the sum.
pub proof fn lemma_squares_le_square_of_sum(n: int)
    requires
        0 <= n,
    ensures
        0 <= sum_first(n),
        n <= sum_first(n),
        0 <= sum_squares(n) <= sum_first(n) * sum_first(n),
    decreases n,
{
    if n > 0 {
        lemma_squares_le_square_of_sum(n - 1);
        assert(sum_first(n - 1) * sum_first(n - 1) + n * n <= (sum_first(n - 1) + n) * (sum_first(
            n - 1,
        ) + n)) by (nonlinear_arith)
            requires
                sum_first(n - 1) >= 0 && n >= 0,
        ;
    }
}

/// The square of the sum of 1 to 100, minus the sum of their squares.
pub fn sum_square_difference() -> (result: u64)
    ensures
        result as int == sum_first(100) * sum_first(100) - sum_squares(100),
{
    let n: u64 = 100;

    let mut sum1: u64 = 0;
    let mut i: u64 = 1;
    while i <= n
        invariant
            1 <= i <= n + 1,
            n == 100,
            sum1 == sum_squares(i - 1),
            sum1 <= 100 * i * i,
        decreases n + 1 - i,
    {
        proof {
            assert(i * i <= 10000 && sum1 + i * i <= 100 * (i + 1) * (i + 1) && sum1 + i * i
                <= 1020100) by (nonlinear_arith)
                requires
                    sum1 <= 100 * i * i,
                    1 <= i <= 100,
            ;
        }
        sum1 = sum1 + i * i;
        i = i + 1;
    }

    let mut sum2: u64 = 0;
    let mut i: u64 = 1;
    while i <= n
        invariant
            1 <= i <= n + 1,
            n == 100,
            sum2 == sum_first(i - 1),
            sum2 <= 100 * i,
        decreases n + 1 - i,
    {
        sum2 = sum2 + i;
        i = i + 1;
    }

    proof {
        lemma_squares_le_square_of_sum(100);
        assert(sum2 * sum2 <= 10100 * 10100) by (nonlinear_arith)
            requires
                0 <= sum2 <= 10100,
        ;
    }
    let squared = sum2 * sum2;
    squared - sum1
}

} // verus!
