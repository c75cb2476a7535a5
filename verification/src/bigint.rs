//! Arbitrary-precision unsigned integers, as `num_bigint` provides them.
//!
//! Nothing in this file is proved: each function states what the library
//! assumes of one operation of `num_bigint`, `num_traits`, `rand` or
//! `num_primes`.

use crate::bytes::le_value;
use num_bigint::{BigUint, RandBigInt};
use vstd::arithmetic::power::pow;
use vstd::arithmetic::power2::pow2;
use vstd::prelude::*;

verus! {

/// `num_bigint::BigUint`, of which the library knows only what the
/// functions below say.
#[verifier::external_type_specification]
#[verifier::external_body]
pub struct ExBigUint(num_bigint::BigUint);

/// The little-endian bytes of a `BigUint`, as `BigUint::to_bytes_le` gives
/// them.
pub uninterp spec fn le_bytes_of(n: BigUint) -> Seq<u8>;

/// The number that a `BigUint` holds.
pub open spec fn big_value(n: BigUint) -> nat {
    le_value(le_bytes_of(n))
}

/// `BigUint::to_bytes_le`: the bytes of the number, least significant first.
#[verifier::external_body]
pub(crate) fn to_le_bytes(n: &BigUint) -> (bytes: Vec<u8>)
    ensures
        bytes@ == le_bytes_of(*n),
{
    n.to_bytes_le()
}

/// `BigUint::from_bytes_le`: the number that the bytes spell, least
/// significant first; zero for no bytes.
#[verifier::external_body]
pub(crate) fn from_le_bytes(bytes: &[u8]) -> (n: BigUint)
    ensures
        big_value(n) == le_value(bytes@),
{
    BigUint::from_bytes_le(bytes)
}

/// `BigUint::from` on a `usize`: the same number.
#[verifier::external_body]
pub(crate) fn from_usize(k: usize) -> (n: BigUint)
    ensures
        big_value(n) == k,
{
    BigUint::from(k)
}

/// `num_traits::Zero::zero` for `BigUint`.
#[verifier::external_body]
pub(crate) fn big_zero() -> (n: BigUint)
    ensures
        big_value(n) == 0,
{
    num_traits::Zero::zero()
}

/// `num_traits::One::one` for `BigUint`.
#[verifier::external_body]
pub(crate) fn big_one() -> (n: BigUint)
    ensures
        big_value(n) == 1,
{
    num_traits::One::one()
}

/// `Clone::clone` of a `BigUint`: a number of the same value.
#[verifier::external_body]
pub(crate) fn big_clone(n: &BigUint) -> (copy: BigUint)
    ensures
        big_value(copy) == big_value(*n),
{
    n.clone()
}

/// Addition of two `BigUint`s (`&a + &b`).
#[verifier::external_body]
pub(crate) fn big_add(a: &BigUint, b: &BigUint) -> (sum: BigUint)
    ensures
        big_value(sum) == big_value(*a) + big_value(*b),
{
    a + b
}

/// Subtraction of two `BigUint`s (`&a - &b`), which panics when `b` exceeds
/// `a`.
#[verifier::external_body]
pub(crate) fn big_sub(a: &BigUint, b: &BigUint) -> (difference: BigUint)
    requires
        big_value(*b) <= big_value(*a),
    ensures
        big_value(difference) == big_value(*a) - big_value(*b),
{
    a - b
}

/// Multiplication of two `BigUint`s (`&a * &b`).
#[verifier::external_body]
pub(crate) fn big_mul(a: &BigUint, b: &BigUint) -> (product: BigUint)
    ensures
        big_value(product) == big_value(*a) * big_value(*b),
{
    a * b
}

/// Remainder of two `BigUint`s (`&a % &m`), which panics on a zero divisor.
#[verifier::external_body]
pub(crate) fn big_rem(a: &BigUint, m: &BigUint) -> (remainder: BigUint)
    requires
        big_value(*m) > 0,
    ensures
        big_value(remainder) == big_value(*a) % big_value(*m),
{
    a % m
}

/// `BigUint::modpow`: `base` to the power `exponent`, reduced by `modulus`.
/// It panics on a zero modulus; moduli below two are left out here.
#[verifier::external_body]
pub(crate) fn big_modpow(base: &BigUint, exponent: &BigUint, modulus: &BigUint) -> (power: BigUint)
    requires
        big_value(*modulus) >= 2,
    ensures
        big_value(power) == pow(big_value(*base) as int, big_value(*exponent)) % (big_value(
            *modulus,
        ) as int),
{
    base.modpow(exponent, modulus)
}

/// Equality of two `BigUint`s (`a == b`) is that of the numbers.
#[verifier::external_body]
pub(crate) fn big_eq(a: &BigUint, b: &BigUint) -> (equal: bool)
    ensures
        equal == (big_value(*a) == big_value(*b)),
{
    a == b
}

/// `BigUint::bits`: the fewest bits that express the number, zero for zero.
#[verifier::external_body]
pub(crate) fn big_bits(n: &BigUint) -> (bits: u64)
    ensures
        big_value(*n) < pow2(bits as nat),
        bits > 0 ==> pow2((bits - 1) as nat) <= big_value(*n),
{
    n.bits()
}

/// `RandBigInt::gen_biguint_below` on `rand::thread_rng()`: some number
/// below the bound. It panics on a zero bound.
#[verifier::external_body]
pub(crate) fn random_below(bound: &BigUint) -> (n: BigUint)
    requires
        big_value(*bound) > 0,
    ensures
        big_value(n) < big_value(*bound),
{
    rand::thread_rng().gen_biguint_below(bound)
}

/// `num_primes::Generator::new_uint`: some number of at most `bits` bits.
#[verifier::external_body]
pub(crate) fn random_bits(bits: usize) -> (n: BigUint)
    ensures
        big_value(n) < pow2(bits as nat),
{
    BigUint::from_bytes_le(&num_primes::Generator::new_uint(bits).to_bytes_le())
}

/// `num_primes::Verification::is_prime`: whether the number passed the
/// crate's tests of primality, which draw random bases. An even number
/// never passes; nothing more is claimed of the answer. The numbers up to
/// three are left out: on three the test can panic.
#[verifier::external_body]
pub(crate) fn passes_prime_tests(n: &BigUint) -> (passed: bool)
    requires
        big_value(*n) > 3,
    ensures
        passed ==> big_value(*n) % 2 == 1,
{
    num_primes::Verification::is_prime(&num_primes::BigUint::from_bytes_le(&n.to_bytes_le()))
}

} // verus!
