//! The largest palindromic number that is a product of two three-digit
//! factors.

use vstd::prelude::*;

use crate::digits::{digits_are_palindrome, extract_digits, is_palindrome_in_base};

verus! {

/// The number reads the same both ways in base ten.
pub open spec fn is_decimal_palindrome(n: nat) -> bool {
    is_palindrome_in_base(n, 10)
}

/// `v` is a product of two three-digit factors, the first no larger than the
/// second.
pub open spec fn is_three_digit_product(v: int) -> bool {
    exists|i: int, j: int| 100 <= i <= j <= 999 && #[trigger] (i * j) == v
}

fn is_palindrome(n: u64) -> (r: bool)
    ensures
        r == is_decimal_palindrome(n as nat),
{
    let v = extract_digits(n, 10);
    digits_are_palindrome(&v)
}

/// The largest palindrome among the products of two three-digit numbers:
/// it is such a product and a palindrome, and no palindromic product of two
/// three-digit numbers exceeds it.
pub fn find_largest_palindrome_product() -> (largest: u64)
    ensures
        largest != 0 ==> is_three_digit_product(largest as int) && is_decimal_palindrome(
            largest as nat,
        ),
        (forall|i: int, j: int|
            100 <= i <= j <= 999 && is_decimal_palindrome((#[trigger] (i * j)) as nat) ==> i * j
                <= largest),
{
    let mut largest: u64 = 0;
    let mut i: u64 = 100;
    while i <= 999
        invariant
            100 <= i <= 1000,
            largest != 0 ==> is_three_digit_product(largest as int) && is_decimal_palindrome(
                largest as nat,
            ),
            forall|a: int, b: int|
                100 <= a < i && a <= b <= 999 && is_decimal_palindrome(
                    (#[trigger] (a * b)) as nat,
                ) ==> a * b <= largest,
        decreases 1000 - i,
    {
        let mut j: u64 = i;
        while j <= 999
            invariant
                100 <= i <= 999,
                i <= j <= 1000,
                largest != 0 ==> is_three_digit_product(largest as int) && is_decimal_palindrome(
                    largest as nat,
                ),
                forall|a: int, b: int|
                    100 <= a < i && a <= b <= 999 && is_decimal_palindrome(
                        (#[trigger] (a * b)) as nat,
                    ) ==> a * b <= largest,
                forall|b: int|
                    i <= b < j && is_decimal_palindrome((#[trigger] (i as int * b)) as nat) ==> i
                        as int * b <= largest,
            decreases 1000 - j,
        {
            proof {
                assert(i * j <= 999 * 999) by (nonlinear_arith)
                    requires
                        i <= 999 && j <= 999 && i >= 0 && j >= 0,
                ;
            }
            let p: u64 = i * j;
            if p > largest {
                if is_palindrome(p) {
                    largest = p;
                }
            }
            j = j + 1;
        }
        i = i + 1;
    }
    largest
}

} // verus!
