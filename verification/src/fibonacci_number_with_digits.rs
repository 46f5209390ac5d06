//! The index of the first Fibonacci number (one-indexed, starting 1, 1) with
//! at least a given number of decimal digits, computed over
//! arbitrary-precision naturals.

use vstd::prelude::*;

use crate::big_number::{big_add, big_from_u64, big_nat, big_one, big_decimal_digits, dec_digits};

verus! {

/// The one-indexed Fibonacci sequence of the problem statement: the first
/// and second terms are 1.
pub open spec fn fib1(k: nat) -> nat
    decreases k,
{
    if k <= 2 {
        1
    } else {
        fib1((k - 1) as nat) + fib1((k - 2) as nat)
    }
}

/// From the second term on, the sequence grows.
pub proof fn lemma_fib1_grows(k: nat)
    requires
        k >= 2,
    ensures
        fib1(k) >= 1,
        fib1((k + 1) as nat) > fib1(k) || k == 2,
        fib1((k + 1) as nat) >= fib1(k),
    decreases k,
{
    if k > 2 {
        lemma_fib1_grows((k - 1) as nat);
    }
}

/// The index from which the sequence has at least `n` digits.  The search
/// starts at the third term, so the answer is never below 3; every index
/// between 3 and the answer has too few digits.
pub open spec fn digits_reached(index: int, n: int) -> bool {
    &&& index >= 3
    &&& dec_digits(fib1(index as nat)).len() >= n
    &&& forall|k: int| 3 <= k < index ==> dec_digits(#[trigger] fib1(k as nat)).len() < n
}

/// The index of the first term, from the third on, with at least `n` decimal
/// digits.
pub fn fibonacci_number_with_specified_digits(n: u32) -> (index: u32)
    requires
        exists|k: int|
            3 <= k <= u32::MAX && dec_digits(#[trigger] fib1(k as nat)).len() >= n,
    ensures
        digits_reached(index as int, n as int),
{
    let ghost k0 = choose|k: int|
        3 <= k <= u32::MAX && dec_digits(#[trigger] fib1(k as nat)).len() >= n;
    let mut fib_a = big_one();
    let mut fib_b = big_one();
    let mut index: u32 = 2;

    loop
        invariant
            2 <= index <= k0 <= u32::MAX,
            3 <= k0,
            dec_digits(fib1(k0 as nat)).len() >= n,
            big_nat(fib_a) == fib1((index - 1) as nat),
            big_nat(fib_b) == fib1(index as nat),
            forall|k: int| 3 <= k <= index ==> dec_digits(#[trigger] fib1(k as nat)).len() < n,
        decreases k0 - index,
    {
        proof {
            assert(dec_digits(fib1(k0 as nat)).len() >= n);
            if index >= k0 {
                assert(false);
            }
        }
        let next_fib = big_add(&fib_a, &fib_b);
        fib_a = fib_b;
        fib_b = next_fib;
        index = index + 1;

        let rendered = big_decimal_digits(&fib_b);
        if rendered.len() >= n as usize {
            return index;
        }
    }
}

/// The same search, with the running pair swapped through a temporary.
pub fn fibonacci_number_with_specified_digits_2(n: u32) -> (index: u32)
    requires
        exists|k: int|
            3 <= k <= u32::MAX && dec_digits(#[trigger] fib1(k as nat)).len() >= n,
    ensures
        digits_reached(index as int, n as int),
{
    let ghost k0 = choose|k: int|
        3 <= k <= u32::MAX && dec_digits(#[trigger] fib1(k as nat)).len() >= n;
    // Initialize the first two Fibonacci numbers
    let mut fib_a = big_from_u64(1);
    let mut fib_b = big_one();
    // Start the index at 2 since we already have the first two terms
    let mut index: u32 = 2;
    // Walk the sequence until the desired number of digits is reached
    loop
        invariant_except_break
            2 <= index <= k0 <= u32::MAX,
            3 <= k0,
            dec_digits(fib1(k0 as nat)).len() >= n,
            big_nat(fib_a) == fib1((index - 1) as nat),
            big_nat(fib_b) == fib1(index as nat),
            forall|k: int| 3 <= k <= index ==> dec_digits(#[trigger] fib1(k as nat)).len() < n,
        ensures
            digits_reached(index as int, n as int),
        decreases k0 - index,
    {
        proof {
            assert(dec_digits(fib1(k0 as nat)).len() >= n);
            if index >= k0 {
                assert(false);
            }
        }
        let temp = fib_b;
        let next_fib = big_add(&temp, &fib_a);
        fib_b = next_fib;
        fib_a = temp;
        index = index + 1;
        let rendered = big_decimal_digits(&fib_b);
        if rendered.len() >= n as usize {
            break ;
        }
    }

    index
}

} // verus!
