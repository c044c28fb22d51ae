//! Arbitrary-precision integers from `num_bigint`, seen by the proofs through the
//! integer that each value holds.

use num_bigint::BigInt;
use vstd::prelude::*;

verus! {

#[verifier::external_type_specification]
#[verifier::external_body]
pub struct ExBigInt(BigInt);

/// The mathematical integer that a `BigInt` holds.
pub uninterp spec fn value_of(b: BigInt) -> int;

/// Remainder of truncated division, carrying the sign of the dividend (as `%` does
/// on Rust's integer types).
pub open spec fn trunc_rem(a: int, m: int) -> int
    recommends
        m > 0,
{
    if a >= 0 {
        a % m
    } else {
        -((-a) % m)
    }
}

/// Relies on `From<u32> for BigInt`: the result holds the same integer.
#[verifier::external_body]
pub(crate) fn big_from_u32(n: u32) -> (r: BigInt)
    ensures
        value_of(r) == n as int,
{
    BigInt::from(n)
}

/// Relies on `Clone for BigInt`: the copy holds the same integer.
#[verifier::external_body]
pub(crate) fn big_clone(b: &BigInt) -> (r: BigInt)
    ensures
        value_of(r) == value_of(*b),
{
    b.clone()
}

/// Relies on `Add<&BigInt> for &BigInt`: the exact sum.
#[verifier::external_body]
pub(crate) fn big_add(a: &BigInt, b: &BigInt) -> (r: BigInt)
    ensures
        value_of(r) == value_of(*a) + value_of(*b),
{
    a + b
}

/// Relies on `Sub<&BigInt> for &BigInt`: the exact difference.
#[verifier::external_body]
pub(crate) fn big_sub(a: &BigInt, b: &BigInt) -> (r: BigInt)
    ensures
        value_of(r) == value_of(*a) - value_of(*b),
{
    a - b
}

/// Relies on `Mul<&BigInt> for &BigInt`: the exact product.
#[verifier::external_body]
pub(crate) fn big_mul(a: &BigInt, b: &BigInt) -> (r: BigInt)
    ensures
        value_of(r) == value_of(*a) * value_of(*b),
{
    a * b
}

/// Relies on `Div<&BigInt> for &BigInt`, which rounds toward zero (`Integer::div_rem`);
/// on a non-negative dividend and a positive divisor that is the floor quotient.
#[verifier::external_body]
pub(crate) fn big_div(a: &BigInt, b: &BigInt) -> (r: BigInt)
    requires
        value_of(*a) >= 0,
        value_of(*b) > 0,
    ensures
        value_of(r) == value_of(*a) / value_of(*b),
{
    a / b
}

/// Relies on `Rem<&BigInt> for &BigInt`: the remainder of truncated division, whose
/// sign is that of the dividend. A zero divisor panics, so it is excluded.
#[verifier::external_body]
pub(crate) fn big_rem(a: &BigInt, b: &BigInt) -> (r: BigInt)
    requires
        value_of(*b) > 0,
    ensures
        value_of(r) == trunc_rem(value_of(*a), value_of(*b)),
{
    a % b
}

/// Relies on `PartialOrd for BigInt`, which orders by value.
#[verifier::external_body]
pub(crate) fn big_lt(a: &BigInt, b: &BigInt) -> (r: bool)
    ensures
        r == (value_of(*a) < value_of(*b)),
{
    a < b
}

} // verus!
