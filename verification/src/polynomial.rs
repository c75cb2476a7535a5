//! Polynomials over the field, with a fixed constant term.

use crate::arith::{lemma_pow_nonnegative, lemma_pow_step};
use crate::bigint::{big_add, big_clone, big_mul, big_rem, big_value, from_usize, random_below};
use crate::field::Field;
use num_bigint::BigUint;
use std::rc::Rc;
use vstd::arithmetic::div_mod::{lemma_add_mod_noop_right, lemma_mod_bound, lemma_small_mod};
use vstd::arithmetic::power::{lemma_pow1, pow};
use vstd::prelude::*;

verus! {

/// The numbers that a sequence of `BigUint`s holds.
pub open spec fn big_values(numbers: Seq<BigUint>) -> Seq<nat> {
    Seq::new(numbers.len(), |i: int| big_value(numbers[i]))
}

/// The sum of `coefficients[i] * x^(i + 1)` over all `i`.
pub open spec fn power_sum(coefficients: Seq<nat>, x: nat) -> nat
    decreases coefficients.len(),
{
    if coefficients.len() == 0 {
        0
    } else {
        power_sum(coefficients.drop_last(), x) + coefficients.last() * pow(
            x as int,
            coefficients.len(),
        ) as nat
    }
}

/// The value at `x` of the polynomial with the given constant term and
/// higher coefficients, reduced by `prime`.
pub open spec fn poly_eval(constant: nat, coefficients: Seq<nat>, x: nat, prime: nat) -> nat {
    (constant + power_sum(coefficients, x)) % prime
}

/// A polynomial over a field: a constant term below the modulus, and the
/// coefficients of the first, second, ... power of the variable.
#[derive(Debug)]
pub struct Polynomial {
    field: Rc<Field>,
    constant: BigUint,
    coefficients: Vec<BigUint>,
}

impl Polynomial {
    #[verifier::type_invariant]
    spec fn constant_reduced(&self) -> bool {
        big_value(self.constant) < self.field.modulus()
    }

    /// The modulus of the polynomial's field.
    pub closed spec fn modulus(&self) -> nat {
        self.field.modulus()
    }

    /// The constant term.
    pub closed spec fn constant_term(&self) -> nat {
        big_value(self.constant)
    }

    /// The coefficients of the first, second, ... power.
    pub closed spec fn higher_terms(&self) -> Seq<nat> {
        big_values(self.coefficients@)
    }

    /// The value of the polynomial at `x`.
    pub open spec fn eval(&self, x: nat) -> nat {
        poly_eval(self.constant_term(), self.higher_terms(), x, self.modulus())
    }

    /// The polynomial with the given constant term and coefficients.
    pub fn with_coefficients(field: Rc<Field>, constant: BigUint, coefficients: Vec<BigUint>) -> (p:
        Polynomial)
        requires
            big_value(constant) < field.modulus(),
        ensures
            p.modulus() == field.modulus(),
            p.constant_term() == big_value(constant),
            p.higher_terms() == big_values(coefficients@),
    {
        Polynomial { field, constant, coefficients }
    }

    /// A polynomial of degree `dim` with the given constant term, its other
    /// coefficients drawn at random below the modulus.
    pub fn new(field: Rc<Field>, constant: BigUint, dim: usize) -> (p: Polynomial)
        requires
            big_value(constant) < field.modulus(),
        ensures
            p.modulus() == field.modulus(),
            p.constant_term() == big_value(constant),
            p.higher_terms().len() == dim,
            forall|i: int| 0 <= i < dim ==> p.higher_terms()[i] < field.modulus(),
    {
        let mut coefficients: Vec<BigUint> = Vec::new();
        let mut drawn: usize = 0;
        while drawn < dim
            invariant
                drawn <= dim,
                coefficients.len() == drawn,
                forall|i: int|
                    0 <= i < drawn ==> big_value(#[trigger] coefficients[i]) < field.modulus(),
            decreases dim - drawn,
        {
            let coefficient = random_below(field.prime());
            coefficients.push(coefficient);
            drawn += 1;
        }
        Polynomial::with_coefficients(field, constant, coefficients)
    }

    /// The coefficients of the first, second, ... power.
    pub fn coefficients(&self) -> (coefficients: &Vec<BigUint>)
        ensures
            big_values(coefficients@) == self.higher_terms(),
    {
        &self.coefficients
    }

    /// The value of the polynomial at `key`: the constant term plus each
    /// coefficient times its power of `key`, reduced by the modulus.
    pub fn call(&self, key: usize) -> (y: BigUint)
        ensures
            big_value(y) == self.eval(key as nat),
            big_value(y) < self.modulus(),
    {
        proof {
            use_type_invariant(self);
        }
        let prime = self.field.prime();
        let base = from_usize(key);
        let mut x = from_usize(key);
        let mut acc = big_clone(&self.constant);
        let mut i: usize = 0;
        proof {
            lemma_pow1(key as int);
            assert(self.higher_terms().take(0).len() == 0);
            lemma_small_mod(self.constant_term(), self.modulus());
        }
        while i < self.coefficients.len()
            invariant
                i <= self.coefficients.len(),
                big_value(*prime) == self.modulus(),
                self.modulus() >= 0x10000,
                big_value(base) == key,
                big_value(x) == pow(key as int, (i + 1) as nat),
                big_value(acc) == poly_eval(
                    self.constant_term(),
                    self.higher_terms().take(i as int),
                    key as nat,
                    self.modulus(),
                ),
            decreases self.coefficients.len() - i,
        {
            let term = big_mul(&x, &self.coefficients[i]);
            let next = big_mul(&x, &base);
            let sum = big_add(&acc, &term);
            proof {
                let terms = self.higher_terms();
                let before = terms.take(i as int);
                let after = terms.take(i + 1);
                let p = self.modulus() as int;
                assert(after.drop_last() == before);
                assert(after.last() == big_value(self.coefficients[i as int]));
                lemma_pow_nonnegative(key as nat, (i + 1) as nat);
                assert(big_value(term) == after.last() * pow(key as int, (i + 1) as nat) as nat)
                    by (nonlinear_arith)
                    requires
                        big_value(term) == big_value(x) * after.last(),
                        big_value(x) == pow(key as int, (i + 1) as nat),
                        pow(key as int, (i + 1) as nat) >= 0,
                ;
                assert(power_sum(after, key as nat) == power_sum(before, key as nat) + big_value(
                    term,
                ));
                lemma_add_mod_noop_right(
                    big_value(term) as int,
                    (self.constant_term() + power_sum(before, key as nat)) as int,
                    p,
                );
                lemma_pow_step(key as int, (i + 1) as nat);
            }
            acc = big_rem(&sum, prime);
            x = next;
            i += 1;
        }
        proof {
            assert(self.higher_terms().take(i as int) == self.higher_terms());
            lemma_mod_bound(
                (self.constant_term() + power_sum(self.higher_terms(), key as nat)) as int,
                self.modulus() as int,
            );
        }
        acc
    }
}

} // verus!
