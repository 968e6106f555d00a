//! Trusted boundary around the arbitrary-precision unsigned integers of the
//! `num` crate.  `big_nat` names the mathematical value a `BigUint` holds;
//! each wrapper makes one `num` call and states what it does to that value.

use vstd::prelude::*;
use vstd::arithmetic::power2::pow2;
use num::BigUint;
use crate::gf2::{bitlen, nx, bit_at};

verus! {

#[verifier::external_type_specification]
#[verifier::external_body]
pub struct ExBigUint(BigUint);

/// The natural number a `BigUint` holds.
pub uninterp spec fn big_nat(b: BigUint) -> nat;

/// Relies on `BigUint::from::<u64>`: builds the big integer with value `x`.
#[verifier::external_body]
pub fn big_from_u64(x: u64) -> (r: BigUint)
    ensures
        big_nat(r) == x as nat,
{
    BigUint::from(x)
}

/// Relies on `BigUint::clone`: the copy holds the same value.
#[verifier::external_body]
pub fn big_clone(a: &BigUint) -> (r: BigUint)
    ensures
        big_nat(r) == big_nat(*a),
{
    a.clone()
}

/// Relies on `BigUint::eq`: equality of the held values.
#[verifier::external_body]
pub fn big_eq(a: &BigUint, b: &BigUint) -> (r: bool)
    ensures
        r <==> big_nat(*a) == big_nat(*b),
{
    a == b
}

/// Relies on `BigUint::lt` (via `PartialOrd`): order of the held values.
#[verifier::external_body]
pub fn big_lt(a: &BigUint, b: &BigUint) -> (r: bool)
    ensures
        r <==> big_nat(*a) < big_nat(*b),
{
    a < b
}

/// Relies on `num::Zero::is_zero` for `BigUint`.
#[verifier::external_body]
pub fn big_is_zero(a: &BigUint) -> (r: bool)
    ensures
        r <==> big_nat(*a) == 0,
{
    num::Zero::is_zero(a)
}

/// Relies on `Add for &BigUint`: the sum of the held values.
#[verifier::external_body]
pub fn big_add(a: &BigUint, b: &BigUint) -> (r: BigUint)
    ensures
        big_nat(r) == big_nat(*a) + big_nat(*b),
{
    a + b
}

/// Relies on `Sub for &BigUint`: the difference of the held values.
/// `num` panics on underflow, so the smaller operand must be on the right.
#[verifier::external_body]
pub fn big_sub(a: &BigUint, b: &BigUint) -> (r: BigUint)
    requires
        big_nat(*b) <= big_nat(*a),
    ensures
        big_nat(r) == big_nat(*a) - big_nat(*b),
{
    a - b
}

/// Relies on `Mul for &BigUint`: the product of the held values.
#[verifier::external_body]
pub fn big_mul(a: &BigUint, b: &BigUint) -> (r: BigUint)
    ensures
        big_nat(r) == big_nat(*a) * big_nat(*b),
{
    a * b
}

/// Relies on `Div for &BigUint`: the quotient, rounded towards zero.
/// `num` panics on a zero divisor.
#[verifier::external_body]
pub fn big_div(a: &BigUint, b: &BigUint) -> (r: BigUint)
    requires
        big_nat(*b) > 0,
    ensures
        big_nat(r) == big_nat(*a) / big_nat(*b),
{
    a / b
}

/// Relies on `Rem for &BigUint`: the remainder of the division.
/// `num` panics on a zero divisor.
#[verifier::external_body]
pub fn big_rem(a: &BigUint, b: &BigUint) -> (r: BigUint)
    requires
        big_nat(*b) > 0,
    ensures
        big_nat(r) == big_nat(*a) % big_nat(*b),
{
    a % b
}

/// Relies on `BitXor for &BigUint`: bitwise exclusive or of the held values.
#[verifier::external_body]
pub fn big_xor(a: &BigUint, b: &BigUint) -> (r: BigUint)
    ensures
        big_nat(r) == nx(big_nat(*a), big_nat(*b)),
{
    a ^ b
}

/// Relies on `Shl<u64> for &BigUint`: shifting left by `s` multiplies by 2^s.
#[verifier::external_body]
pub fn big_shl(a: &BigUint, s: u64) -> (r: BigUint)
    ensures
        big_nat(r) == big_nat(*a) * pow2(s as nat),
{
    a << s
}

/// Relies on `Shr<u64> for &BigUint`: shifting right by `s` divides by 2^s.
#[verifier::external_body]
pub fn big_shr(a: &BigUint, s: u64) -> (r: BigUint)
    ensures
        big_nat(r) == big_nat(*a) / pow2(s as nat),
{
    a >> s
}

/// Relies on `BigUint::bits`: the number of bits of the value, zero for zero.
#[verifier::external_body]
pub fn big_bits(a: &BigUint) -> (r: u64)
    ensures
        r as nat == bitlen(big_nat(*a)),
{
    a.bits()
}

/// Relies on `BigUint::bit`: whether bit `i` of the value is set.
#[verifier::external_body]
pub fn big_bit(a: &BigUint, i: u64) -> (r: bool)
    ensures
        r <==> bit_at(big_nat(*a), i as nat),
{
    a.bit(i)
}

} // verus!
