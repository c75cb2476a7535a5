//! Facts of arithmetic that the rest of the library leans on.

use vstd::arithmetic::div_mod::lemma_fundamental_div_mod_converse;
use vstd::arithmetic::power::{lemma_pow_multiplies, pow};
use vstd::arithmetic::power2::{lemma2_to64, lemma_pow2, pow2};
use vstd::prelude::*;

verus! {

/// A power of a natural number is not negative.
pub proof fn lemma_pow_nonnegative(b: nat, e: nat)
    ensures
        pow(b as int, e) >= 0,
    decreases e,
{
    reveal(pow);
    if e > 0 {
        lemma_pow_nonnegative(b, (e - 1) as nat);
        assert(b * pow(b as int, (e - 1) as nat) >= 0) by (nonlinear_arith)
            requires
                pow(b as int, (e - 1) as nat) >= 0,
        ;
    }
}

/// The next power is the power times the base.
pub proof fn lemma_pow_step(b: int, e: nat)
    ensures
        pow(b, e + 1) == pow(b, e) * b,
{
    reveal(pow);
    assert(pow(b, e + 1) == b * pow(b, e));
    assert(b * pow(b, e) == pow(b, e) * b) by (nonlinear_arith);
}

/// A power of 256 is the power of two with eight times the exponent.
pub proof fn lemma_pow256(e: nat)
    ensures
        pow(256, e) == pow2(8 * e),
{
    lemma2_to64();
    lemma_pow2(8);
    lemma_pow2(8 * e);
    lemma_pow_multiplies(2, 8, e);
}

/// Rounding up: if `len` lies above `j * c` and not above `(j + 1) * c`,
/// then `len + c - 1` divided by `c` is `j + 1`.
pub proof fn lemma_div_rounds_up(len: int, c: int, j: int)
    requires
        c > 0,
        j * c < len <= j * c + c,
    ensures
        (len + c - 1) / c == j + 1,
{
    let r = len + c - 1 - (j + 1) * c;
    assert((j + 1) * c == j * c + c) by (nonlinear_arith);
    assert((j + 1) * c == c * (j + 1)) by (nonlinear_arith);
    lemma_fundamental_div_mod_converse(len + c - 1, c, j + 1, r);
}

} // verus!
