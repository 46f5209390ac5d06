//! Sum of all natural numbers below 1000 that are multiples of 3 or 5.

use vstd::prelude::*;

verus! {

/// The sum of all multiples of 3 or 5 in the range `1 .. n`.
pub open spec fn sum_multiples_3_5(n: int) -> int
    decreases n,
{
    if n <= 1 {
        0
    } else {
        sum_multiples_3_5(n - 1) + if (n - 1) % 3 == 0 || (n - 1) % 5 == 0 {
            n - 1
        } else {
            0
        }
    }
}

pub fn sum_multiples_3_5_below_1000() -> (result: i32)
    ensures
        result == sum_multiples_3_5(1000),
{
    let mut sum: i32 = 0;

    for i in 1..1000i32
        invariant
            sum == sum_multiples_3_5(i as int),
            0 <= sum < 1000 * i,
    {
        if i % 3 == 0 || i % 5 == 0 {
            sum += i;
        }
    }

    sum
}

/// The same computation, accumulating over the range in a single pass.
pub fn sum_multiples_3_5_below_1000_functional() -> (result: i32)
    ensures
        result == sum_multiples_3_5(1000),
{
    let mut sum: i32 = 0;
    let mut i: i32 = 1;
    while i < 1000
        invariant
            1 <= i <= 1000,
            sum == sum_multiples_3_5(i as int),
            0 <= sum < 1000 * i,
        decreases 1000 - i,
    {
        if i % 3 == 0 || i % 5 == 0 {
            sum += i;
        }
        i += 1;
    }

    sum
}

} // verus!
