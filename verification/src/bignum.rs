//! The arbitrary-precision integers of `num_bigint`, as this crate sees them.
//!
//! `BigUint` and `BigInt` are opaque to the verifier. What the crate knows of
//! a `BigUint` is the sequence of 64-bit digits that `to_u64_digits` returns
//! for it; every other contract in this module is stated over the integer
//! that those digits stand for. Nothing in this module is proved: each item
//! restates the documented behaviour of one function of `num_bigint`.

use crate::limbs::digits_value;
use num_bigint::{BigInt, BigUint};
use vstd::arithmetic::power::pow;
use vstd::arithmetic::power2::pow2;
use vstd::prelude::*;

verus! {

/// `num_bigint::BigUint`, an unsigned integer of any size, carried through
/// as an opaque value.
#[verifier::external_type_specification]
#[verifier::external_body]
pub struct ExBigUint(num_bigint::BigUint);

/// `num_bigint::BigInt`, a signed integer of any size, carried through as an
/// opaque value.
#[verifier::external_type_specification]
#[verifier::external_body]
pub struct ExBigInt(num_bigint::BigInt);

/// The digits of `n` in base 2^64, least significant first, as
/// `BigUint::to_u64_digits` returns them.
pub uninterp spec fn u64_digits(n: BigUint) -> Seq<u64>;

/// Whether `n` is below zero, as `Signed::is_negative` reports it.
pub uninterp spec fn bigint_negative(n: BigInt) -> bool;

/// The digits in base 2^64, least significant first, of the magnitude that
/// `BigInt::magnitude` returns for `n`.
pub uninterp spec fn bigint_magnitude_digits(n: BigInt) -> Seq<u64>;

/// The integer that `n` holds.
pub open spec fn biguint_value(n: BigUint) -> nat {
    digits_value(u64_digits(n))
}

/// The absolute value of the integer that `n` holds.
pub open spec fn bigint_magnitude(n: BigInt) -> nat {
    digits_value(bigint_magnitude_digits(n))
}

/// `BigUint::to_u64_digits`: the digits of `n` in base 2^64, least
/// significant first. This is the definition of `u64_digits`.
pub assume_specification[ BigUint::to_u64_digits ](n: &BigUint) -> (digits: Vec<u64>)
    ensures
        digits@ == u64_digits(*n),
;

/// `Clone::clone` for `BigUint`: a copy with the same digits.
pub assume_specification[ <BigUint as Clone>::clone ](n: &BigUint) -> (copy: BigUint)
    ensures
        u64_digits(copy) == u64_digits(*n),
;

/// `BigInt::magnitude`: the absolute value of `n`, borrowed from it. This is
/// the definition of `bigint_magnitude_digits`.
pub assume_specification[ BigInt::magnitude ](n: &BigInt) -> (magnitude: &BigUint)
    ensures
        u64_digits(*magnitude) == bigint_magnitude_digits(*n),
;

/// `Signed::is_negative` for `BigInt`: whether the sign of `n` is minus.
/// This is the definition of `bigint_negative`.
#[verifier::external_body]
pub(crate) fn is_negative(n: &BigInt) -> (negative: bool)
    ensures
        negative == bigint_negative(*n),
{
    num_traits::Signed::is_negative(n)
}

/// `BigUint::modpow`: `base` raised to `exponent`, reduced modulo `modulus`.
/// The outside function panics on a zero modulus.
pub assume_specification[ BigUint::modpow ](
    base: &BigUint,
    exponent: &BigUint,
    modulus: &BigUint,
) -> (power: BigUint)
    requires
        biguint_value(*modulus) != 0,
    ensures
        biguint_value(power) == pow(biguint_value(*base) as int, biguint_value(*exponent)) % (
        biguint_value(*modulus) as int),
;

/// `From<u128>` for `BigUint`: the integer `x`.
#[verifier::external_body]
pub(crate) fn biguint_from_u128(x: u128) -> (n: BigUint)
    ensures
        biguint_value(n) == x,
{
    BigUint::from(x)
}

/// `Shl<usize>` for `BigUint`: `n` times `2^bits`. The shift is kept small
/// here; the outside function allocates room for every bit it shifts in.
#[verifier::external_body]
pub(crate) fn biguint_shl(n: BigUint, bits: usize) -> (shifted: BigUint)
    requires
        bits <= 256,
    ensures
        biguint_value(shifted) == biguint_value(n) * pow2(bits as nat),
{
    n << bits
}

/// `Add<&BigUint>` for `BigUint`: the sum of `a` and `b`.
#[verifier::external_body]
pub(crate) fn biguint_add(a: BigUint, b: &BigUint) -> (sum: BigUint)
    ensures
        biguint_value(sum) == biguint_value(a) + biguint_value(*b),
{
    a + b
}

/// `PartialEq` for `BigUint`: whether `a` and `b` hold the same integer.
/// A `BigUint` keeps no leading zero digit, so equal integers have equal
/// digit vectors, which is what the outside function compares.
#[verifier::external_body]
pub(crate) fn biguint_eq(a: &BigUint, b: &BigUint) -> (equal: bool)
    ensures
        equal == (biguint_value(*a) == biguint_value(*b)),
{
    a == b
}

} // verus!
