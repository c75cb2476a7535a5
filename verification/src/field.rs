//! The prime field in which one secret is shared.

use crate::bigint::{big_bits, big_value, passes_prime_tests, random_bits};
use crate::SSSError;
use num_bigint::BigUint;
use std::rc::Rc;
use vstd::arithmetic::power2::{lemma2_to64, lemma_pow2_strictly_increases, pow2};
use vstd::prelude::*;

verus! {

/// `Rc::clone`: another handle on the same field. This is taken on trust.
#[verifier::external_body]
pub(crate) fn share_field(field: &Rc<Field>) -> (handle: Rc<Field>)
    ensures
        *handle == **field,
{
    Rc::clone(field)
}

/// How many numbers `Field::new` draws for each bit of the modulus before
/// it gives up. About one number of `n` bits in `1.4 n` has its top bit set
/// and is prime.
pub const DRAWS_PER_BIT: usize = 256;

/// A number whose shortest spelling has `n` bits lies from `2^(n - 1)` up to
/// `2^n`, and no other number does.
proof fn lemma_exact_bits(v: nat, bits: nat, n: nat)
    requires
        n > 16,
        v < pow2(bits),
        bits > 0 ==> pow2((bits - 1) as nat) <= v,
    ensures
        bits == n <==> pow2((n - 1) as nat) <= v < pow2(n),
        pow2((n - 1) as nat) >= 0x10000,
{
    if bits < n {
        if bits < n - 1 {
            lemma_pow2_strictly_increases(bits, (n - 1) as nat);
        }
    } else if bits > n {
        if n < bits - 1 {
            lemma_pow2_strictly_increases(n, (bits - 1) as nat);
        }
    }
    lemma2_to64();
    if 16 < n - 1 {
        lemma_pow2_strictly_increases(16, (n - 1) as nat);
    }
}

/// A modulus of more than sixteen bits.
///
/// The modulus is meant to be prime. It comes from a probabilistic test,
/// so its primality is a hypothesis of the theorems about reconstruction,
/// not a fact that this type carries.
#[derive(Debug)]
pub struct Field {
    prime: BigUint,
}

impl Field {
    #[verifier::type_invariant]
    spec fn large(&self) -> bool {
        big_value(self.prime) >= 0x10000
    }

    /// The modulus as a number.
    pub closed spec fn modulus(&self) -> nat {
        big_value(self.prime)
    }

    /// The field with the given modulus, if that has exactly `n` bits and
    /// `n` is above sixteen.
    pub fn from_prime(prime: BigUint, n: usize) -> (field: Option<Field>)
        ensures
            field is Some <==> n > 16 && pow2((n - 1) as nat) <= big_value(prime) < pow2(n as nat),
            field matches Some(f) ==> f.modulus() == big_value(prime),
    {
        let bits = big_bits(&prime);
        proof {
            if n > 16 {
                lemma_exact_bits(big_value(prime), bits as nat, n as nat);
            }
        }
        if n > 16 && bits == n as u64 {
            Some(Field { prime })
        } else {
            None
        }
    }

    /// The field that one draw gives: the field with the candidate as
    /// modulus, if the candidate passed the tests of primality, has exactly
    /// `n` bits, and `n` is above sixteen.
    pub fn from_draw(candidate: BigUint, passed: bool, n: usize) -> (field: Option<Field>)
        ensures
            field is Some <==> passed && n > 16 && pow2((n - 1) as nat) <= big_value(candidate)
                < pow2(n as nat),
            field matches Some(f) ==> f.modulus() == big_value(candidate),
    {
        if passed {
            Field::from_prime(candidate, n)
        } else {
            None
        }
    }

    /// A field whose modulus is a probable prime of exactly `n` bits, and
    /// odd.
    ///
    /// Numbers of at most `n` bits are drawn, up to `DRAWS_PER_BIT` for each
    /// bit, until one has its top bit set and passes the tests of
    /// primality.
    pub fn new(n: usize) -> (field: Result<Field, SSSError>)
        requires
            n > 16,
        ensures
            field matches Ok(f) ==> pow2((n - 1) as nat) <= f.modulus() < pow2(n as nat),
            field matches Ok(f) ==> f.modulus() % 2 == 1,
            field matches Err(e) ==> e == SSSError::NoPrime,
    {
        let limit: usize = if n <= usize::MAX / DRAWS_PER_BIT {
            n * DRAWS_PER_BIT
        } else {
            usize::MAX
        };
        let mut draws: usize = 0;
        while draws < limit
            invariant
                n > 16,
            decreases limit - draws,
        {
            let candidate = random_bits(n);
            let bits = big_bits(&candidate);
            proof {
                lemma_exact_bits(big_value(candidate), bits as nat, n as nat);
            }
            let passed = bits == n as u64 && passes_prime_tests(&candidate);
            match Field::from_draw(candidate, passed, n) {
                Some(field) => {
                    return Ok(field);
                },
                None => {},
            }
            draws += 1;
        }
        Err(SSSError::NoPrime)
    }

    /// The modulus.
    pub fn prime(&self) -> (prime: &BigUint)
        ensures
            big_value(*prime) == self.modulus(),
            self.modulus() >= 0x10000,
    {
        proof {
            use_type_invariant(self);
        }
        &self.prime
    }
}

} // verus!
