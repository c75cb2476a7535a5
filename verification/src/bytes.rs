//! Little-endian byte strings as natural numbers.

use vstd::arithmetic::div_mod::{
    lemma_basic_div, lemma_div_denominator, lemma_fundamental_div_mod_converse,
};
use vstd::arithmetic::power::{lemma_pow0, lemma_pow_increases, lemma_pow_positive, pow};
use vstd::prelude::*;

verus! {

/// The number that `bytes` spells in base 256, least significant byte first.
pub open spec fn le_value(bytes: Seq<u8>) -> nat
    decreases bytes.len(),
{
    if bytes.len() == 0 {
        0
    } else {
        bytes[0] as nat + 256 * le_value(bytes.skip(1))
    }
}

/// The byte of weight `256^i` in the base-256 expansion of `v`.
pub open spec fn le_digit(v: nat, i: nat) -> u8 {
    ((v as int / pow(256, i)) % 256) as u8
}

/// The `len` low-order bytes of `v`, least significant first.
pub open spec fn le_bytes(v: nat, len: nat) -> Seq<u8> {
    Seq::new(len, |i: int| le_digit(v, i as nat))
}

/// A byte string of length `n` spells a number below `256^n`.
pub proof fn lemma_le_value_bound(bytes: Seq<u8>)
    ensures
        le_value(bytes) < pow(256, bytes.len()),
    decreases bytes.len(),
{
    reveal(pow);
    if bytes.len() > 0 {
        lemma_le_value_bound(bytes.skip(1));
    }
}

/// The bytes of a string are the digits of the number that it spells, and
/// the digits beyond its end are zero.
pub proof fn lemma_le_value_digit(bytes: Seq<u8>, i: nat)
    ensures
        le_digit(le_value(bytes), i) == if i < bytes.len() {
            bytes[i as int]
        } else {
            0
        },
    decreases i,
{
    let v = le_value(bytes) as int;
    if i >= bytes.len() {
        lemma_le_value_bound(bytes);
        lemma_pow_increases(256, bytes.len(), i);
        lemma_basic_div(v, pow(256, i));
    } else if i == 0 {
        lemma_pow0(256);
    } else {
        let rest = bytes.skip(1);
        let w = le_value(rest) as int;
        lemma_le_value_digit(rest, (i - 1) as nat);
        lemma_pow_positive(256, (i - 1) as nat);
        reveal(pow);
        assert(pow(256, i) == 256 * pow(256, (i - 1) as nat));
        lemma_div_denominator(v, 256, pow(256, (i - 1) as nat));
        lemma_fundamental_div_mod_converse(v, 256, w, bytes[0] as int);
    }
}

/// Writing the number that a string spells back in as many bytes gives the
/// string.
pub proof fn lemma_le_bytes_of_le_value(bytes: Seq<u8>)
    ensures
        le_bytes(le_value(bytes), bytes.len()) == bytes,
{
    assert forall|i: int| 0 <= i < bytes.len() implies le_bytes(le_value(bytes), bytes.len())[i]
        == bytes[i] by {
        lemma_le_value_digit(bytes, i as nat);
    }
}

} // verus!
