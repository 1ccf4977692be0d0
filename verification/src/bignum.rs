//! Arbitrary-precision unsigned integers, modelled by their numeric value.
//!
//! `num_bigint::BigUint` carries the group elements and exponents of the
//! protocol.  Verus sees the type as opaque; the spec function `bigval` names
//! the natural number a value holds, and every trusted wrapper below states
//! what the wrapped operation does to that number.

use vstd::prelude::*;

verus! {

#[verifier::external_type_specification]
#[verifier::external_body]
pub struct ExBigUint(num_bigint::BigUint);

/// The natural number held by a `BigUint`.
pub uninterp spec fn bigval(b: num_bigint::BigUint) -> nat;

/// Relies on `<BigUint as From<u64>>::from`: the value holds the given
/// number.
#[verifier::external_body]
pub(crate) fn big_from_u64(n: u64) -> (r: num_bigint::BigUint)
    ensures
        bigval(r) == n as nat,
{
    num_bigint::BigUint::from(n)
}

/// Relies on `<&BigUint as Mul>::mul`: multiplication of the held numbers.
#[verifier::external_body]
pub(crate) fn big_mul(a: &num_bigint::BigUint, b: &num_bigint::BigUint) -> (r:
    num_bigint::BigUint)
    ensures
        bigval(r) == bigval(*a) * bigval(*b),
{
    a * b
}

/// Relies on `<&BigUint as Rem>::rem`: the remainder of the held numbers.
/// The divisor must be nonzero, since `rem` panics on zero.
#[verifier::external_body]
pub(crate) fn big_mod(a: &num_bigint::BigUint, m: &num_bigint::BigUint) -> (r:
    num_bigint::BigUint)
    requires
        bigval(*m) > 0,
    ensures
        bigval(r) == bigval(*a) % bigval(*m),
{
    a % m
}

/// Relies on `<&BigUint as Sub>::sub`: subtraction of the held numbers.
/// The subtrahend must not exceed the minuend, since `sub` panics on underflow.
#[verifier::external_body]
pub(crate) fn big_sub(a: &num_bigint::BigUint, b: &num_bigint::BigUint) -> (r:
    num_bigint::BigUint)
    requires
        bigval(*b) <= bigval(*a),
    ensures
        bigval(r) == bigval(*a) - bigval(*b),
{
    a - b
}

/// Relies on `BigUint::modpow`: modular exponentiation of the held numbers.
/// The modulus must be nonzero, since `modpow` panics on a zero modulus.
#[verifier::external_body]
pub(crate) fn big_modpow(
    base: &num_bigint::BigUint,
    exponent: &num_bigint::BigUint,
    modulus: &num_bigint::BigUint,
) -> (r: num_bigint::BigUint)
    requires
        bigval(*modulus) > 0,
    ensures
        bigval(r) == crate::arith::pow_mod(bigval(*base), bigval(*exponent), bigval(*modulus)),
{
    base.modpow(exponent, modulus)
}

/// Relies on `<BigUint as PartialOrd>::ge`: order of the held numbers.
#[verifier::external_body]
pub(crate) fn big_ge(a: &num_bigint::BigUint, b: &num_bigint::BigUint) -> (r: bool)
    ensures
        r == (bigval(*a) >= bigval(*b)),
{
    a >= b
}

/// Relies on `<BigUint as PartialEq>::eq`: equality of the held numbers.
#[verifier::external_body]
pub(crate) fn big_eq(a: &num_bigint::BigUint, b: &num_bigint::BigUint) -> (r: bool)
    ensures
        r == (bigval(*a) == bigval(*b)),
{
    a == b
}

/// Relies on `<BigUint as Clone>::clone`: the copy holds the same number.
#[verifier::external_body]
pub(crate) fn big_clone(a: &num_bigint::BigUint) -> (r: num_bigint::BigUint)
    ensures
        bigval(r) == bigval(*a),
{
    a.clone()
}

/// Relies on `BigUint::from_bytes_be`: reads a big-endian byte sequence.
#[verifier::external_body]
pub(crate) fn big_from_bytes_be(bytes: &Vec<u8>) -> (r: num_bigint::BigUint)
    ensures
        bigval(r) == be_val(bytes@),
{
    num_bigint::BigUint::from_bytes_be(bytes)
}

/// The number written by a big-endian byte sequence.
pub open spec fn be_val(bytes: Seq<u8>) -> nat
    decreases bytes.len(),
{
    if bytes.len() == 0 {
        0
    } else {
        (be_val(bytes.drop_last()) * 256 + bytes.last()) as nat
    }
}

} // verus!
