//! The arbitrary-precision integer of `num-bigint`, and the operations on it
//! that the digit generator uses.
//!
//! A `BigInt` stands for one mathematical integer, `big_value`. Nothing in this
//! file is proved: each function states what the operation of `num-bigint`
//! that it calls does to that integer.

use crate::decimal::ascii_decimal;
use num_bigint::BigInt;
use vstd::arithmetic::power::pow;
use vstd::arithmetic::power2::pow2;
use vstd::prelude::*;

verus! {

/// `num_bigint::BigInt`, a signed integer of unbounded magnitude.
#[verifier::external_type_specification]
#[verifier::external_body]
pub struct ExBigInt(num_bigint::BigInt);

/// The integer that a `BigInt` holds.
pub uninterp spec fn big_value(n: BigInt) -> int;

/// The quotient of `a` by `b` rounded toward zero, as Rust's `/` rounds it.
pub open spec fn trunc_div(a: int, b: int) -> int {
    if a >= 0 && b > 0 {
        a / b
    } else if a < 0 && b > 0 {
        -((-a) / b)
    } else if a >= 0 && b < 0 {
        -(a / (-b))
    } else {
        (-a) / (-b)
    }
}

/// The absolute value of an integer.
pub open spec fn magnitude(v: int) -> int {
    if v < 0 {
        -v
    } else {
        v
    }
}

/// `BigInt::from(u128)`: the `BigInt` that holds `x`.
#[verifier::external_body]
pub(crate) fn big_from(x: u128) -> (r: BigInt)
    ensures
        big_value(r) == x,
{
    BigInt::from(x)
}

/// `&BigInt + &BigInt`: the sum.
#[verifier::external_body]
pub(crate) fn big_add(a: &BigInt, b: &BigInt) -> (r: BigInt)
    ensures
        big_value(r) == big_value(*a) + big_value(*b),
{
    a + b
}

/// `&BigInt * &BigInt`: the product.
#[verifier::external_body]
pub(crate) fn big_mul(a: &BigInt, b: &BigInt) -> (r: BigInt)
    ensures
        big_value(r) == big_value(*a) * big_value(*b),
{
    a * b
}

/// `-BigInt`: the negation.
#[verifier::external_body]
pub(crate) fn big_neg(a: BigInt) -> (r: BigInt)
    ensures
        big_value(r) == -big_value(a),
{
    -a
}

/// `&BigInt / &BigInt`: the quotient rounded toward zero. The division panics
/// on a zero divisor, which `requires` leaves out.
#[verifier::external_body]
pub(crate) fn big_div(a: &BigInt, b: &BigInt) -> (r: BigInt)
    requires
        big_value(*b) != 0,
    ensures
        big_value(r) == trunc_div(big_value(*a), big_value(*b)),
{
    a / b
}

/// `&BigInt << u32`: the value times two to the power `shift`.
#[verifier::external_body]
pub(crate) fn big_shl(a: &BigInt, shift: u32) -> (r: BigInt)
    ensures
        big_value(r) == big_value(*a) * pow2(shift as nat),
{
    a << shift
}

/// `&BigInt >> u32`: the value divided by two to the power `shift`, rounded
/// toward negative infinity.
#[verifier::external_body]
pub(crate) fn big_shr(a: &BigInt, shift: u32) -> (r: BigInt)
    ensures
        big_value(r) == big_value(*a) / (pow2(shift as nat) as int),
{
    a >> shift
}

/// `BigInt::bits`: the fewest bits that express the magnitude: zero for zero,
/// and otherwise the `r` with `2^(r-1) <= |a| < 2^r`.
#[verifier::external_body]
pub(crate) fn big_bits(a: &BigInt) -> (r: u64)
    ensures
        big_value(*a) == 0 ==> r == 0,
        big_value(*a) != 0 ==> r >= 1 && pow2((r - 1) as nat) <= magnitude(big_value(*a)) < pow2(
            r as nat,
        ),
{
    a.bits()
}

/// `BigInt::pow`: the value raised to the power `exponent`, where the power
/// zero of any value is one.
#[verifier::external_body]
pub(crate) fn big_pow(a: &BigInt, exponent: u32) -> (r: BigInt)
    ensures
        big_value(r) == pow(big_value(*a), exponent as nat),
{
    a.pow(exponent)
}

/// `&BigInt >= &BigInt`: whether the first value is at least the second.
#[verifier::external_body]
pub(crate) fn big_ge(a: &BigInt, b: &BigInt) -> (r: bool)
    ensures
        r == (big_value(*a) >= big_value(*b)),
{
    a >= b
}

/// `num_traits::Zero::is_zero` of `BigInt`: whether the value is zero.
#[verifier::external_body]
pub(crate) fn big_is_zero(a: &BigInt) -> (r: bool)
    ensures
        r == (big_value(*a) == 0),
{
    num_traits::Zero::is_zero(a)
}

/// `BigInt::to_string`, as bytes: the decimal text of the value in ASCII, with
/// a minus sign before a negative value and no leading zeros.
#[verifier::external_body]
pub(crate) fn big_to_decimal(a: &BigInt) -> (r: Vec<u8>)
    ensures
        r@ == ascii_decimal(big_value(*a)),
{
    a.to_string().into_bytes()
}

} // verus!
