//! What sharing and reconstruction owe each other.
//!
//! The theorems speak of shares as plain numbers; `distribute` and
//! `reconstruct` state their results in the same terms. Where a theorem
//! needs the modulus to be prime, it says so: the modulus of a field comes
//! from a probabilistic test.

use crate::arith::lemma_div_rounds_up;
use crate::bytes::le_value;
use crate::lagrange::{distinct_residues, lemma_interpolate_polynomial, lemma_inverse};
use crate::modular::is_prime;
use crate::polynomial::{poly_eval, power_sum};
use crate::recovery::{
    keys_of, lemma_chosen_from_sharing, lemma_chunk_below_modulus, lemma_chunks,
    lemma_keys_distinct_residues, lemma_recorded_length_of_chunks,
    lemma_recovered_bytes_are_secret, lemma_recovered_bytes_length,
    lemma_recovered_bytes_permutation, lemma_sharing_unfolds, lemma_weighted_sum_is_interpolation,
};
use crate::sharing::{
    chunk_count, chunk_of, distinct_keys, is_sharing, mod_inverse, reconstruction,
    recorded_length, recovered, same_field, same_layout, same_length, shared_value,
    sharing_coefficients, sharing_modulus, weight_product, weighted_sum, ShareView,
};
use vstd::arithmetic::div_mod::{
    lemma_div_pos_is_pos, lemma_fundamental_div_mod, lemma_mod_bound, lemma_small_mod,
};
use vstd::arithmetic::power::pow;
use vstd::arithmetic::power2::{lemma2_to64, lemma_pow2_pos, lemma_pow2_strictly_increases, pow2};
use vstd::prelude::*;

verus! {

/// Modulo a prime, the power `prime - 2` of a residue other than zero is
/// its inverse.
pub proof fn lemma_mod_inverse_inverts(a: nat, prime: nat)
    requires
        is_prime(prime),
        0 < a < prime,
    ensures
        (a * mod_inverse(a, prime)) % prime == 1,
        mod_inverse(a, prime) < prime,
{
    lemma_small_mod(a, prime);
    lemma_inverse(prime, a as int);
    lemma_mod_bound(pow(a as int, (prime - 2) as nat), prime as int);
}

/// Any `threshold` or more shares of one sharing, in any order, reconstruct
/// the secret, provided that the modulus is prime and that no two of their
/// keys are congruent modulo it.
pub proof fn lemma_reconstruct_sharing(
    secret: Seq<u8>,
    chunk_size: nat,
    n: nat,
    threshold: nat,
    shares: Seq<ShareView>,
    chosen: Seq<ShareView>,
)
    requires
        chunk_size >= 1,
        threshold >= 1,
        is_sharing(shares, secret, chunk_size, n, threshold),
        chosen.len() >= threshold,
        forall|i: int| 0 <= i < chosen.len() ==> shares.contains(#[trigger] chosen[i]),
        is_prime(chosen[0].prime),
        distinct_residues(keys_of(chosen), chosen[0].prime),
    ensures
        reconstruction(chosen) == secret,
{
    lemma_sharing_unfolds(shares, secret, chunk_size, n, threshold);
    lemma_chosen_from_sharing(shares, secret, chunk_size, n, threshold, chosen);
    let p = sharing_modulus(shares, secret, chunk_size, n, threshold);
    let coefficients = sharing_coefficients(shares, secret, chunk_size, n, threshold, p);
    let chunks = chunk_count(secret.len(), chunk_size);
    let keys = keys_of(chosen);
    assert(chosen[0].prime == p);
    assert forall|j: int| 0 <= j < chunks implies #[trigger] recovered(chosen, j) == le_value(
        chunk_of(secret, chunk_size, j),
    ) by {
        let constant = le_value(chunk_of(secret, chunk_size, j));
        assert forall|i: int| 0 <= i < chosen.len() implies 0 <= j < (
        #[trigger] chosen[i]).values.len() && chosen[i].values[j].int == poly_eval(
            constant,
            coefficients[j],
            chosen[i].key,
            p,
        ) by {
            assert(chosen[i].values[j] == shared_value(
                secret,
                chunk_size,
                p,
                coefficients,
                chosen[i].key,
                j,
            ));
        }
        assert forall|i: int| 0 <= i < keys.len() implies #[trigger] keys[i] >= 0 by {}
        lemma_weighted_sum_is_interpolation(chosen, chosen, j, p, constant, coefficients[j]);
        lemma_interpolate_polynomial(keys, constant, coefficients[j], p);
        lemma_chunk_below_modulus(secret, chunk_size, j, p);
        lemma_small_mod(constant, p);
    }
    assert forall|j: int| 0 <= j < chunks implies (#[trigger] chosen[0].values[j]).chunk_size
        == chunk_of(secret, chunk_size, j).len() by {
        assert(chosen[0].values[j] == shared_value(
            secret,
            chunk_size,
            p,
            coefficients,
            chosen[0].key,
            j,
        ));
    }
    lemma_recovered_bytes_are_secret(chosen, secret, chunk_size);
}

/// Any `threshold` or more shares of one sharing with keys that all differ,
/// in any order, reconstruct the secret, provided that the modulus is prime
/// and that there are fewer participants than `2^(8 * chunk_size)`.
pub proof fn lemma_reconstruct_distinct_keys(
    secret: Seq<u8>,
    chunk_size: nat,
    n: nat,
    threshold: nat,
    shares: Seq<ShareView>,
    chosen: Seq<ShareView>,
)
    requires
        chunk_size >= 1,
        threshold >= 1,
        n < pow2(8 * chunk_size),
        is_sharing(shares, secret, chunk_size, n, threshold),
        chosen.len() >= threshold,
        forall|i: int| 0 <= i < chosen.len() ==> shares.contains(#[trigger] chosen[i]),
        distinct_keys(chosen),
        is_prime(chosen[0].prime),
    ensures
        reconstruction(chosen) == secret,
{
    lemma_sharing_unfolds(shares, secret, chunk_size, n, threshold);
    lemma_chosen_from_sharing(shares, secret, chunk_size, n, threshold, chosen);
    lemma_keys_distinct_residues(chosen, chosen[0].prime);
    lemma_reconstruct_sharing(secret, chunk_size, n, threshold, shares, chosen);
}

/// Of ten shares made in chunks of eight bytes with the threshold eight,
/// any nine with keys that all differ, in any order, reconstruct the
/// secret, provided that the modulus is prime.
pub proof fn lemma_nine_of_ten(secret: Seq<u8>, shares: Seq<ShareView>, chosen: Seq<ShareView>)
    requires
        is_sharing(shares, secret, 8, 10, 8),
        chosen.len() == 9,
        forall|i: int| 0 <= i < chosen.len() ==> shares.contains(#[trigger] chosen[i]),
        distinct_keys(chosen),
        is_prime(chosen[0].prime),
    ensures
        reconstruction(chosen) == secret,
{
    lemma2_to64();
    lemma_reconstruct_distinct_keys(secret, 8, 10, 8, shares, chosen);
}

/// All `n` shares of a sharing together reconstruct the secret, when `n` is
/// at least the threshold, under the same provisos.
pub proof fn lemma_reconstruct_all_shares(
    secret: Seq<u8>,
    chunk_size: nat,
    n: nat,
    threshold: nat,
    shares: Seq<ShareView>,
)
    requires
        chunk_size >= 1,
        1 <= threshold <= n,
        is_sharing(shares, secret, chunk_size, n, threshold),
        is_prime(shares[0].prime),
        distinct_residues(keys_of(shares), shares[0].prime),
    ensures
        reconstruction(shares) == secret,
{
    lemma_sharing_unfolds(shares, secret, chunk_size, n, threshold);
    assert forall|i: int| 0 <= i < shares.len() implies shares.contains(#[trigger] shares[i]) by {}
    lemma_reconstruct_sharing(secret, chunk_size, n, threshold, shares, shares);
}

/// Shares of one layout give the same bytes in whatever order they are
/// handed in.
pub proof fn lemma_reconstruction_order(a: Seq<ShareView>, b: Seq<ShareView>)
    requires
        a.to_multiset() == b.to_multiset(),
        same_layout(a),
    ensures
        reconstruction(a) == reconstruction(b),
{
    a.to_multiset_ensures();
    b.to_multiset_ensures();
    if a.len() == 0 {
        assert(b.len() == 0);
        assert(a =~= b);
    } else {
        assert(b.len() == a.len());
        assert(b.contains(b[0]));
        assert(a.to_multiset().count(b[0]) > 0);
        assert(a.contains(b[0]));
        let i = choose|i: int| 0 <= i < a.len() && a[i] == b[0];
        assert(a[i].prime == a[0].prime);
        assert forall|j: int| 0 <= j < a[0].values.len() implies (
        #[trigger] a[0].values[j]).chunk_size == b[0].values[j].chunk_size by {
            assert(a[i].values[j].chunk_size == a[0].values[j].chunk_size);
        }
        lemma_recovered_bytes_permutation(a, b, a[0].values.len());
    }
}

/// Where the length of the secret is no multiple of the chunk size, every
/// share records the remainder as the length of its last value, and the
/// bytes reconstructed from enough shares end with the last, shorter chunk
/// of the secret.
pub proof fn lemma_final_chunk(
    secret: Seq<u8>,
    chunk_size: nat,
    n: nat,
    threshold: nat,
    shares: Seq<ShareView>,
    chosen: Seq<ShareView>,
)
    requires
        chunk_size >= 1,
        threshold >= 1,
        secret.len() % chunk_size != 0,
        is_sharing(shares, secret, chunk_size, n, threshold),
        chosen.len() >= threshold,
        forall|i: int| 0 <= i < chosen.len() ==> shares.contains(#[trigger] chosen[i]),
        is_prime(chosen[0].prime),
        distinct_residues(keys_of(chosen), chosen[0].prime),
    ensures
        chosen[0].values.len() == secret.len() / chunk_size + 1,
        chosen[0].values.last().chunk_size == secret.len() % chunk_size,
        reconstruction(chosen).len() == secret.len(),
        reconstruction(chosen).subrange(
            secret.len() - secret.len() % chunk_size,
            secret.len() as int,
        ) == chunk_of(secret, chunk_size, (secret.len() / chunk_size) as int),
{
    lemma_chosen_from_sharing(shares, secret, chunk_size, n, threshold, chosen);
    lemma_reconstruct_sharing(secret, chunk_size, n, threshold, shares, chosen);
    let p = sharing_modulus(shares, secret, chunk_size, n, threshold);
    let coefficients = sharing_coefficients(shares, secret, chunk_size, n, threshold, p);
    let len = secret.len() as int;
    let c = chunk_size as int;
    let full = len / c;
    lemma_fundamental_div_mod(len, c);
    lemma_mod_bound(len, c);
    lemma_div_pos_is_pos(len, c);
    assert(c * full == full * c) by (nonlinear_arith);
    assert((full + 1) * c == full * c + c) by (nonlinear_arith);
    lemma_div_rounds_up(len, c, full);
    lemma_chunks(secret.len(), chunk_size, full);
    assert(chosen[0].values.last() == shared_value(
        secret,
        chunk_size,
        p,
        coefficients,
        chosen[0].key,
        full,
    ));
}

/// Reconstruction gives as many bytes as the first share records.
pub proof fn lemma_reconstruction_length(shares: Seq<ShareView>)
    ensures
        reconstruction(shares).len() == recorded_length(shares[0].values),
{
    lemma_recovered_bytes_length(shares, shares[0].values.len());
    assert(shares[0].values.take(shares[0].values.len() as int) == shares[0].values);
}

/// Every share of a sharing has one value for each chunk of the secret.
/// Each value records `chunk_size` bytes, but for a last one that records
/// what is left, and together they record the length of the secret.
pub proof fn lemma_recorded_lengths(
    secret: Seq<u8>,
    chunk_size: nat,
    n: nat,
    threshold: nat,
    shares: Seq<ShareView>,
    k: int,
)
    requires
        chunk_size >= 1,
        is_sharing(shares, secret, chunk_size, n, threshold),
        0 <= k < shares.len(),
    ensures
        shares[k].values.len() == chunk_count(secret.len(), chunk_size),
        forall|j: int|
            0 <= j < chunk_count(secret.len(), chunk_size) ==> (
            #[trigger] shares[k].values[j]).chunk_size == if (j + 1) * chunk_size
                <= secret.len() {
                chunk_size as int
            } else {
                secret.len() - j * chunk_size
            },
        forall|j: int|
            0 <= j < chunk_count(secret.len(), chunk_size) ==> 1 <= (
            #[trigger] shares[k].values[j]).chunk_size <= chunk_size,
        forall|j: int|
            0 <= j < chunk_count(secret.len(), chunk_size) - 1 ==> (
            #[trigger] shares[k].values[j]).chunk_size == chunk_size,
        recorded_length(shares[k].values) == secret.len(),
{
    lemma_sharing_unfolds(shares, secret, chunk_size, n, threshold);
    let p = sharing_modulus(shares, secret, chunk_size, n, threshold);
    let coefficients = sharing_coefficients(shares, secret, chunk_size, n, threshold, p);
    let chunks = chunk_count(secret.len(), chunk_size);
    let values = shares[k].values;
    assert forall|j: int| 0 <= j < chunks implies {
        &&& (#[trigger] values[j]).chunk_size == chunk_of(secret, chunk_size, j).len()
        &&& values[j].chunk_size == if (j + 1) * chunk_size <= secret.len() {
            chunk_size as int
        } else {
            secret.len() - j * chunk_size
        }
        &&& 1 <= values[j].chunk_size <= chunk_size
        &&& j < chunks - 1 ==> values[j].chunk_size == chunk_size
    } by {
        assert(values[j] == shared_value(
            secret,
            chunk_size,
            p,
            coefficients,
            shares[k].key,
            j,
        ));
        lemma_chunks(secret.len(), chunk_size, j);
        assert((j + 1) * chunk_size == j * chunk_size + chunk_size) by (nonlinear_arith);
        if j < chunks - 1 {
            lemma_chunks(secret.len(), chunk_size, j + 1);
        }
    }
    lemma_recorded_length_of_chunks(values, secret, chunk_size, chunks);
    assert(values.take(chunks as int) == values);
    if chunks == 0 {
        let c = chunk_size as int;
        lemma_fundamental_div_mod(secret.len() + c - 1, c);
        lemma_mod_bound(secret.len() + c - 1, c);
        assert(c * 0 == 0);
        assert(0 * chunk_size == 0);
    } else {
        lemma_chunks(secret.len(), chunk_size, chunks - 1);
    }
}

/// Whatever the modulus and however few the shares, reconstruction from
/// shares of one sharing gives as many bytes as the secret has.
pub proof fn lemma_reconstruction_length_of_sharing(
    secret: Seq<u8>,
    chunk_size: nat,
    n: nat,
    threshold: nat,
    shares: Seq<ShareView>,
    chosen: Seq<ShareView>,
)
    requires
        chunk_size >= 1,
        is_sharing(shares, secret, chunk_size, n, threshold),
        chosen.len() >= 1,
        forall|i: int| 0 <= i < chosen.len() ==> shares.contains(#[trigger] chosen[i]),
    ensures
        reconstruction(chosen).len() == secret.len(),
{
    assert(shares.contains(chosen[0]));
    let k = choose|k: int| 0 <= k < shares.len() && shares[k] == chosen[0];
    lemma_recorded_lengths(secret, chunk_size, n, threshold, shares, k);
    lemma_reconstruction_length(chosen);
}

/// With threshold one the polynomials are constant: every share holds, for
/// each chunk, the chunk's number itself, and any single share reconstructs
/// the secret.
pub proof fn lemma_threshold_one(
    secret: Seq<u8>,
    chunk_size: nat,
    n: nat,
    shares: Seq<ShareView>,
    k: int,
)
    requires
        chunk_size >= 1,
        is_sharing(shares, secret, chunk_size, n, 1),
        0 <= k < shares.len(),
    ensures
        shares[k].values.len() == chunk_count(secret.len(), chunk_size),
        forall|j: int|
            0 <= j < chunk_count(secret.len(), chunk_size) ==> (#[trigger] shares[k].values[j]).int
                == le_value(chunk_of(secret, chunk_size, j)),
        reconstruction(seq![shares[k]]) == secret,
{
    lemma_sharing_unfolds(shares, secret, chunk_size, n, 1);
    let p = sharing_modulus(shares, secret, chunk_size, n, 1);
    let coefficients = sharing_coefficients(shares, secret, chunk_size, n, 1, p);
    let chunks = chunk_count(secret.len(), chunk_size);
    let share = shares[k];
    let alone = seq![share];
    lemma2_to64();
    if 8 < 8 * chunk_size {
        lemma_pow2_strictly_increases(8, 8 * chunk_size);
    }
    assert(p >= 256);
    assert forall|j: int| 0 <= j < chunks implies (#[trigger] share.values[j]).int == le_value(
        chunk_of(secret, chunk_size, j),
    ) by {
        assert(share.values[j] == shared_value(secret, chunk_size, p, coefficients, share.key, j));
        assert(coefficients[j].len() == 0);
        lemma_chunk_below_modulus(secret, chunk_size, j, p);
        lemma_small_mod(le_value(chunk_of(secret, chunk_size, j)), p);
    }
    assert(alone.drop_last().len() == 0);
    assert(alone.last() == share);
    assert(weight_product(alone.drop_last(), share.key, p) == 1);
    assert(weight_product(alone, share.key, p) == 1);
    lemma_small_mod(1, p);
    assert forall|j: int| 0 <= j < chunks implies #[trigger] recovered(alone, j) == le_value(
        chunk_of(secret, chunk_size, j),
    ) by {
        let v = le_value(chunk_of(secret, chunk_size, j));
        assert(share.values[j].int == v);
        assert(weighted_sum(alone.drop_last(), alone, j, p) == 0);
        assert(weighted_sum(alone, alone, j, p) == 0 + v * 1);
        lemma_chunk_below_modulus(secret, chunk_size, j, p);
        lemma_small_mod(v, p);
    }
    assert forall|j: int| 0 <= j < chunks implies (#[trigger] alone[0].values[j]).chunk_size
        == chunk_of(secret, chunk_size, j).len() by {
        assert(share.values[j] == shared_value(secret, chunk_size, p, coefficients, share.key, j));
    }
    lemma_recovered_bytes_are_secret(alone, secret, chunk_size);
}

/// Shares taken from one sharing belong together: they have one modulus,
/// equally many values, and the same chunk length for each value. Their
/// keys lie between one and `n`, and their values below the modulus.
pub proof fn lemma_sharing_is_uniform(
    secret: Seq<u8>,
    chunk_size: nat,
    n: nat,
    threshold: nat,
    shares: Seq<ShareView>,
    chosen: Seq<ShareView>,
)
    requires
        is_sharing(shares, secret, chunk_size, n, threshold),
        forall|i: int| 0 <= i < chosen.len() ==> shares.contains(#[trigger] chosen[i]),
    ensures
        same_field(chosen),
        same_length(chosen),
        same_layout(chosen),
        forall|i: int| 0 <= i < chosen.len() ==> 1 <= (#[trigger] chosen[i]).key <= n,
        forall|i: int, j: int|
            0 <= i < chosen.len() && 0 <= j < chosen[i].values.len() ==> (
            #[trigger] chosen[i].values[j]).int < chosen[i].prime,
{
    lemma_sharing_unfolds(shares, secret, chunk_size, n, threshold);
    lemma_chosen_from_sharing(shares, secret, chunk_size, n, threshold, chosen);
    let p = sharing_modulus(shares, secret, chunk_size, n, threshold);
    let coefficients = sharing_coefficients(shares, secret, chunk_size, n, threshold, p);
    lemma_pow2_pos(8 * chunk_size);
    assert forall|i: int, j: int|
        0 <= i < chosen.len() && 0 <= j < chosen[i].values.len() implies (
    #[trigger] chosen[i].values[j]).int < chosen[i].prime by {
        assert(chosen[i].values[j] == shared_value(
            secret,
            chunk_size,
            p,
            coefficients,
            chosen[i].key,
            j,
        ));
        lemma_mod_bound(
            (le_value(chunk_of(secret, chunk_size, j)) + power_sum(
                coefficients[j],
                chosen[i].key,
            )) as int,
            p as int,
        );
    }
    assert forall|i: int| 0 <= i < chosen.len() implies {
        &&& (#[trigger] chosen[i]).prime == chosen[0].prime
        &&& chosen[i].values.len() == chosen[0].values.len()
        &&& forall|j: int|
            0 <= j < chosen[0].values.len() ==> (#[trigger] chosen[i].values[j]).chunk_size
                == chosen[0].values[j].chunk_size
    } by {
        assert(chosen[0].prime == p);
    }
}

} // verus!
