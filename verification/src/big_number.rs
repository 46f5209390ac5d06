//! Arbitrary-precision naturals, taken from the num-bigint crate.
//!
//! A `BigUint` is opaque to the verifier, so the spec function `big_nat`
//! names the number a value holds, and a small set of trusted wrappers state
//! what the crate's operations do to it.  All arithmetic on big numbers goes
//! through these wrappers; the logic built on them is verified.

use vstd::prelude::*;

use num_bigint::BigUint;
use num_traits::One;

verus! {

#[verifier::external_type_specification]
#[verifier::external_body]
pub struct ExBigUint(BigUint);

/// The natural number a `BigUint` holds.
pub uninterp spec fn big_nat(b: BigUint) -> nat;

/// The decimal digits of `n` as ASCII bytes, most significant first, without
/// leading zeros (`"0"` for zero).
pub open spec fn dec_digits(n: nat) -> Seq<u8>
    decreases n,
{
    if n < 10 {
        seq![(48 + n) as u8]
    } else {
        dec_digits(n / 10).push((48 + n % 10) as u8)
    }
}

/// Relies on `num_traits::One` for `BigUint`: the number one.
#[verifier::external_body]
pub fn big_one() -> (r: BigUint)
    ensures
        big_nat(r) == 1,
{
    BigUint::one()
}

/// Relies on `BigUint`'s `From<u64>`: the same number, arbitrary precision.
#[verifier::external_body]
pub fn big_from_u64(x: u64) -> (r: BigUint)
    ensures
        big_nat(r) == x,
{
    BigUint::from(x)
}

/// Relies on `BigUint` addition.
#[verifier::external_body]
pub fn big_add(a: &BigUint, b: &BigUint) -> (r: BigUint)
    ensures
        big_nat(r) == big_nat(*a) + big_nat(*b),
{
    a + b
}

/// Relies on `BigUint` multiplication.
#[verifier::external_body]
pub fn big_mul(a: &BigUint, b: &BigUint) -> (r: BigUint)
    ensures
        big_nat(r) == big_nat(*a) * big_nat(*b),
{
    a * b
}

/// Relies on `BigUint`'s decimal `Display`: the digits of the number, most
/// significant first, without leading zeros.
#[verifier::external_body]
pub fn big_decimal_digits(b: &BigUint) -> (r: Vec<u8>)
    ensures
        r@ == dec_digits(big_nat(*b)),
{
    b.to_string().into_bytes()
}

/// Every byte of a decimal rendering is an ASCII digit.
pub proof fn lemma_dec_digits_range(n: nat)
    ensures
        dec_digits(n).len() >= 1,
        forall|i: int| 0 <= i < dec_digits(n).len() ==> 48 <= #[trigger] dec_digits(n)[i] <= 57,
    decreases n,
{
    if n >= 10 {
        lemma_dec_digits_range(n / 10);
    }
}

} // verus!
