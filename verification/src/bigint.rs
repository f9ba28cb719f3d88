//! Trusted boundary around `num_bigint::BigInt`.
//!
//! Intermediate values of the Lagrange interpolation (products of up to k
//! pairwise differences) exceed any fixed-width integer, so the field
//! arithmetic runs on `BigInt`. Each operation the library relies on is
//! wrapped here with a contract over `big_value`, the integer a `BigInt`
//! holds.

use vstd::prelude::*;

use modulo::Mod;
use num_bigint::BigInt;
use num_traits::ToPrimitive;
use num_traits::Zero;

verus! {

#[verifier::external_type_specification]
#[verifier::external_body]
pub struct ExBigInt(BigInt);

/// The integer that a `BigInt` holds.
pub uninterp spec fn big_value(b: BigInt) -> int;

/// Quotient rounded toward zero, the division that `num_bigint` implements,
/// written with the euclidean `/` of specifications.
pub open spec fn div_trunc(a: int, z: int) -> int
    recommends
        z > 0,
{
    if a >= 0 {
        a / z
    } else {
        -((-a) / z)
    }
}

/// Relies on `BigInt: From<i64>`: the exact value, converted.
#[verifier::external_body]
pub fn big_from_i64(x: i64) -> (r: BigInt)
    ensures
        big_value(r) == x as int,
{
    BigInt::from(x)
}

/// Relies on `Mul for &BigInt`: the exact product.
#[verifier::external_body]
pub fn big_mul(a: &BigInt, b: &BigInt) -> (r: BigInt)
    ensures
        big_value(r) == big_value(*a) * big_value(*b),
{
    a * b
}

/// Relies on `Add for &BigInt`: the exact sum.
#[verifier::external_body]
pub fn big_add(a: &BigInt, b: &BigInt) -> (r: BigInt)
    ensures
        big_value(r) == big_value(*a) + big_value(*b),
{
    a + b
}

/// Relies on `Sub for &BigInt`: the exact difference.
#[verifier::external_body]
pub fn big_sub(a: &BigInt, b: &BigInt) -> (r: BigInt)
    ensures
        big_value(r) == big_value(*a) - big_value(*b),
{
    a - b
}

/// Relies on `Clone for BigInt`: the clone holds the same value.
#[verifier::external_body]
pub fn big_clone(a: &BigInt) -> (r: BigInt)
    ensures
        big_value(r) == big_value(*a),
{
    a.clone()
}

/// Relies on `Div for &BigInt`, which rounds the quotient toward zero.
#[verifier::external_body]
pub fn big_div_trunc(a: &BigInt, z: &BigInt) -> (r: BigInt)
    requires
        big_value(*z) > 0,
    ensures
        big_value(r) == div_trunc(big_value(*a), big_value(*z)),
{
    a / z
}

/// Relies on `modulo::Mod::modulo`, which adds the divisor back when the
/// truncated remainder is negative: for a positive divisor the result is the
/// mathematical residue in `[0, z)`.
#[verifier::external_body]
pub fn big_mod_floor(a: &BigInt, z: &BigInt) -> (r: BigInt)
    requires
        big_value(*z) > 0,
    ensures
        big_value(r) == big_value(*a) % big_value(*z),
{
    Mod::modulo(a, z)
}

/// Relies on `num_traits::Zero::is_zero` for `BigInt`.
#[verifier::external_body]
pub fn big_is_zero(a: &BigInt) -> (r: bool)
    ensures
        r <==> big_value(*a) == 0,
{
    a.is_zero()
}

/// Relies on `num_traits::ToPrimitive::to_i64` for `BigInt`: `Some` exactly
/// when the value fits an `i64`.
#[verifier::external_body]
pub fn big_to_i64(a: &BigInt) -> (r: Option<i64>)
    ensures
        r is Some <==> i64::MIN <= big_value(*a) <= i64::MAX,
        r is Some ==> r->0 == big_value(*a),
{
    a.to_i64()
}

/// Relies on `num_traits::ToPrimitive::to_i32` for `BigInt`: `Some` exactly
/// when the value fits an `i32`.
#[verifier::external_body]
pub fn big_to_i32(a: &BigInt) -> (r: Option<i32>)
    ensures
        r is Some <==> i32::MIN <= big_value(*a) <= i32::MAX,
        r is Some ==> r->0 == big_value(*a),
{
    a.to_i32()
}

} // verus!
