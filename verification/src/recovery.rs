//! Why the weighted sums of reconstruction give back what was shared.

use crate::arith::lemma_pow256;
use crate::bytes::{le_value, lemma_le_bytes_of_le_value, lemma_le_value_bound};
use crate::lagrange::{basis, basis_term, distinct_residues, polynomial, sum_over};
use crate::polynomial::{poly_eval, power_sum};
use crate::sharing::{
    chunk_count, chunk_of, chunk_start, coefficients_fit, distinct_keys, is_sharing,
    is_sharing_over, is_sized_for, reconstruction, recorded_length, recovered, recovered_bytes,
    shared_values, sharing, sharing_coefficients, sharing_modulus, weight, weight_factor,
    weight_product, weighted_sum, ShareView, ValueView,
};
use vstd::arithmetic::div_mod::{
    lemma_add_mod_noop, lemma_fundamental_div_mod, lemma_mod_add_multiples_vanish,
    lemma_mod_bound, lemma_mul_mod_noop, lemma_small_mod,
};
use vstd::arithmetic::power::{lemma_pow_increases, pow};
use vstd::arithmetic::power2::pow2;
use vstd::prelude::*;
use vstd::seq_lib::{commutative_foldl, lemma_fold_left_permutation};

verus! {

/// A sharing is the sharing over its modulus with its coefficients; the
/// modulus has the size for the chunks and the coefficients fit.
pub proof fn lemma_sharing_unfolds(
    shares: Seq<ShareView>,
    secret: Seq<u8>,
    chunk_size: nat,
    n: nat,
    threshold: nat,
)
    requires
        is_sharing(shares, secret, chunk_size, n, threshold),
    ensures
        ({
            let p = sharing_modulus(shares, secret, chunk_size, n, threshold);
            let cs = sharing_coefficients(shares, secret, chunk_size, n, threshold, p);
            &&& is_sized_for(p, chunk_size)
            &&& coefficients_fit(cs, secret.len(), chunk_size, threshold, p)
            &&& shares == sharing(secret, chunk_size, n, p, cs)
        }),
{
    let p = sharing_modulus(shares, secret, chunk_size, n, threshold);
    assert(is_sharing_over(shares, secret, chunk_size, n, threshold, p));
}

/// Every share taken from a sharing has the sharing's modulus, a key from
/// one to `n`, and the values that the sharing gives to that key.
pub proof fn lemma_chosen_from_sharing(
    shares: Seq<ShareView>,
    secret: Seq<u8>,
    chunk_size: nat,
    n: nat,
    threshold: nat,
    chosen: Seq<ShareView>,
)
    requires
        is_sharing(shares, secret, chunk_size, n, threshold),
        forall|i: int| 0 <= i < chosen.len() ==> shares.contains(#[trigger] chosen[i]),
    ensures
        ({
            let p = sharing_modulus(shares, secret, chunk_size, n, threshold);
            let cs = sharing_coefficients(shares, secret, chunk_size, n, threshold, p);
            forall|i: int|
                0 <= i < chosen.len() ==> {
                    &&& (#[trigger] chosen[i]).prime == p
                    &&& 1 <= chosen[i].key <= n
                    &&& chosen[i].values == shared_values(
                        secret,
                        chunk_size,
                        p,
                        cs,
                        chosen[i].key,
                        chunk_count(secret.len(), chunk_size),
                    )
                }
        }),
{
    lemma_sharing_unfolds(shares, secret, chunk_size, n, threshold);
    let p = sharing_modulus(shares, secret, chunk_size, n, threshold);
    let cs = sharing_coefficients(shares, secret, chunk_size, n, threshold, p);
    assert forall|i: int| 0 <= i < chosen.len() implies {
        &&& (#[trigger] chosen[i]).prime == p
        &&& 1 <= chosen[i].key <= n
        &&& chosen[i].values == shared_values(
            secret,
            chunk_size,
            p,
            cs,
            chosen[i].key,
            chunk_count(secret.len(), chunk_size),
        )
    } by {
        assert(shares.contains(chosen[i]));
        let k = choose|k: int| 0 <= k < shares.len() && shares[k] == chosen[i];
        assert(shares[k].key == k + 1);
    }
}

/// The bytes recovered for the first chunks are as many as the first share
/// records for them.
pub proof fn lemma_recovered_bytes_length(shares: Seq<ShareView>, chunks: nat)
    requires
        chunks <= shares[0].values.len(),
    ensures
        recovered_bytes(shares, chunks).len() == recorded_length(
            shares[0].values.take(chunks as int),
        ),
    decreases chunks,
{
    let values = shares[0].values;
    if chunks > 0 {
        lemma_recovered_bytes_length(shares, (chunks - 1) as nat);
        assert(values.take(chunks as int).drop_last() == values.take(chunks - 1));
        assert(values.take(chunks as int).last() == values[chunks - 1]);
    } else {
        assert(values.take(0).len() == 0);
    }
}

/// Values that record the lengths of the first chunks of a secret record
/// together where those chunks end.
pub proof fn lemma_recorded_length_of_chunks(
    values: Seq<ValueView>,
    secret: Seq<u8>,
    chunk_size: nat,
    chunks: nat,
)
    requires
        chunk_size >= 1,
        chunks <= chunk_count(secret.len(), chunk_size),
        chunks <= values.len(),
        forall|j: int|
            0 <= j < chunks ==> (#[trigger] values[j]).chunk_size == chunk_of(
                secret,
                chunk_size,
                j,
            ).len(),
    ensures
        recorded_length(values.take(chunks as int)) == chunk_start(
            secret.len(),
            chunk_size,
            chunks as int,
        ),
    decreases chunks,
{
    if chunks > 0 {
        let j = chunks - 1;
        lemma_recorded_length_of_chunks(values, secret, chunk_size, j as nat);
        lemma_chunks(secret.len(), chunk_size, j);
        assert(values.take(chunks as int).drop_last() == values.take(j));
        assert(values.take(chunks as int).last() == values[j]);
    } else {
        assert(values.take(0).len() == 0);
        assert(0 * chunk_size == 0);
    }
}

/// The keys of a sequence of shares.
pub open spec fn keys_of(shares: Seq<ShareView>) -> Seq<int> {
    Seq::new(shares.len(), |i: int| shares[i].key as int)
}

/// The weight product of a key is the basis product of the key among the
/// keys of the shares.
pub proof fn lemma_weight_product_is_basis(shares: Seq<ShareView>, x: nat, p: nat)
    requires
        p > 0,
    ensures
        weight_product(shares, x, p) == basis(keys_of(shares), x as int, p),
    decreases shares.len(),
{
    if shares.len() > 0 {
        let rest = shares.drop_last();
        lemma_weight_product_is_basis(rest, x, p);
        assert(keys_of(shares).drop_last() == keys_of(rest));
        assert(keys_of(shares).last() == shares.last().key);
        let xi = shares.last().key;
        lemma_mod_bound(xi - x, p as int);
        lemma_mod_bound(pow((xi - x) % (p as int), (p - 2) as nat), p as int);
    }
}

/// Where every share of `part` holds, for `chunk`, the value of one
/// polynomial at its key, the weighted sum is congruent to the sum of the
/// interpolation terms of the keys.
pub proof fn lemma_weighted_sum_is_interpolation(
    part: Seq<ShareView>,
    all: Seq<ShareView>,
    chunk: int,
    p: nat,
    constant: nat,
    coefficients: Seq<nat>,
)
    requires
        p > 0,
        forall|i: int|
            0 <= i < part.len() ==> 0 <= chunk < (#[trigger] part[i]).values.len()
                && part[i].values[chunk].int == poly_eval(
                constant,
                coefficients,
                part[i].key,
                p,
            ),
    ensures
        weighted_sum(part, all, chunk, p) % p == sum_over(
            keys_of(part),
            basis_term(keys_of(all), polynomial(constant, coefficients), p),
        ) % (p as int),
    decreases part.len(),
{
    let m = p as int;
    let term = basis_term(keys_of(all), polynomial(constant, coefficients), p);
    if part.len() > 0 {
        let rest = part.drop_last();
        let last = part.last();
        assert forall|i: int| 0 <= i < rest.len() implies 0 <= chunk < (
        #[trigger] rest[i]).values.len() && rest[i].values[chunk].int == poly_eval(
            constant,
            coefficients,
            rest[i].key,
            p,
        ) by {
            assert(rest[i] == part[i]);
        }
        lemma_weighted_sum_is_interpolation(rest, all, chunk, p, constant, coefficients);
        assert(keys_of(part).drop_last() == keys_of(rest));
        assert(keys_of(part).last() == last.key);
        assert(last == part[part.len() - 1]);
        lemma_weight_product_is_basis(all, last.key, p);
        let value = constant + power_sum(coefficients, last.key);
        let b = basis(keys_of(all), last.key as int, p);
        assert(term(last.key as int) == value * b);
        lemma_mod_bound(b, m);
        assert(last.values[chunk].int * weight(all, last.key, p) == (value % p) * (b % m));
        lemma_mul_mod_noop(value as int, b, m);
        lemma_add_mod_noop(
            weighted_sum(rest, all, chunk, p) as int,
            (last.values[chunk].int * weight(all, last.key, p)) as int,
            m,
        );
        lemma_add_mod_noop(sum_over(keys_of(rest), term), term(last.key as int), m);
    }
}

/// Keys that differ and lie below the modulus differ modulo it.
pub proof fn lemma_keys_distinct_residues(shares: Seq<ShareView>, p: nat)
    requires
        p > 0,
        forall|i: int| 0 <= i < shares.len() ==> (#[trigger] shares[i]).key < p,
        distinct_keys(shares),
    ensures
        distinct_residues(keys_of(shares), p),
{
    let keys = keys_of(shares);
    assert forall|i: int, j: int| 0 <= i < keys.len() && 0 <= j < keys.len() && i != j implies (
    #[trigger] keys[i] - #[trigger] keys[j]) % (p as int) != 0 by {
        let d = keys[i] - keys[j];
        assert(shares[i].key < p && shares[j].key < p);
        if i < j {
            assert(shares[i].key != shares[j].key);
        } else {
            assert(shares[j].key != shares[i].key);
        }
        if d > 0 {
            lemma_small_mod(d as nat, p);
        } else {
            lemma_small_mod((d + p) as nat, p);
            lemma_mod_add_multiples_vanish(d, p as int);
        }
    }
}

/// The chunks of a secret: each before the last is full, none is empty,
/// and together they cover the secret.
pub proof fn lemma_chunks(len: nat, chunk_size: nat, j: int)
    requires
        chunk_size >= 1,
        0 <= j < chunk_count(len, chunk_size),
    ensures
        chunk_start(len, chunk_size, j) == j * chunk_size,
        j * chunk_size < len,
        chunk_start(len, chunk_size, j) < chunk_start(len, chunk_size, j + 1) <= len,
        chunk_start(len, chunk_size, j + 1) - chunk_start(len, chunk_size, j) <= chunk_size,
        j + 1 == chunk_count(len, chunk_size) ==> chunk_start(len, chunk_size, j + 1) == len,
{
    let c = chunk_size as int;
    let q = chunk_count(len, chunk_size) as int;
    let total = len + c - 1;
    lemma_fundamental_div_mod(total, c);
    lemma_mod_bound(total, c);
    assert(q == total / c);
    assert(c * q <= total);
    assert(total < c * q + c);
    assert((j + 1) * c <= q * c) by (nonlinear_arith)
        requires
            j + 1 <= q,
            c >= 1,
    ;
    assert((j + 1) * c == j * c + c) by (nonlinear_arith);
    assert(q * c == c * q) by (nonlinear_arith);
    assert(j * c >= 0) by (nonlinear_arith)
        requires
            j >= 0,
            c >= 1,
    ;
}

/// The bytes recovered for the first `chunks` chunks are the secret up to
/// the end of those chunks, where every chunk's number is recovered.
pub proof fn lemma_recovered_bytes_are_prefix(
    shares: Seq<ShareView>,
    secret: Seq<u8>,
    chunk_size: nat,
    chunks: nat,
)
    requires
        chunk_size >= 1,
        chunks <= chunk_count(secret.len(), chunk_size),
        forall|j: int|
            0 <= j < chunks ==> #[trigger] recovered(shares, j) == le_value(
                chunk_of(secret, chunk_size, j),
            ),
        forall|j: int|
            0 <= j < chunks ==> (#[trigger] shares[0].values[j]).chunk_size == chunk_of(
                secret,
                chunk_size,
                j,
            ).len(),
    ensures
        recovered_bytes(shares, chunks) == secret.subrange(
            0,
            chunk_start(secret.len(), chunk_size, chunks as int),
        ),
    decreases chunks,
{
    if chunks == 0 {
        assert(0 * chunk_size == 0);
        assert(recovered_bytes(shares, 0) =~= secret.subrange(0, 0));
    } else {
        let j = chunks - 1;
        lemma_recovered_bytes_are_prefix(shares, secret, chunk_size, j as nat);
        lemma_chunks(secret.len(), chunk_size, j);
        let chunk = chunk_of(secret, chunk_size, j);
        assert(recovered(shares, j) == le_value(chunk));
        assert(shares[0].values[j].chunk_size == chunk.len());
        lemma_le_bytes_of_le_value(chunk);
        assert(recovered_bytes(shares, chunks) =~= secret.subrange(
            0,
            chunk_start(secret.len(), chunk_size, chunks as int),
        ));
    }
}

/// The chunks recovered for all chunks of a secret are the secret.
pub proof fn lemma_recovered_bytes_are_secret(
    shares: Seq<ShareView>,
    secret: Seq<u8>,
    chunk_size: nat,
)
    requires
        chunk_size >= 1,
        shares[0].values.len() == chunk_count(secret.len(), chunk_size),
        forall|j: int|
            0 <= j < chunk_count(secret.len(), chunk_size) ==> #[trigger] recovered(shares, j)
                == le_value(chunk_of(secret, chunk_size, j)),
        forall|j: int|
            0 <= j < chunk_count(secret.len(), chunk_size) ==> (
            #[trigger] shares[0].values[j]).chunk_size == chunk_of(secret, chunk_size, j).len(),
    ensures
        reconstruction(shares) == secret,
{
    let chunks = chunk_count(secret.len(), chunk_size);
    lemma_recovered_bytes_are_prefix(shares, secret, chunk_size, chunks);
    if chunks == 0 {
        let c = chunk_size as int;
        let total = secret.len() + c - 1;
        lemma_fundamental_div_mod(total, c);
        lemma_mod_bound(total, c);
        assert(c * 0 == 0);
        assert(0 * chunk_size == 0);
        assert(secret.len() == 0);
    } else {
        lemma_chunks(secret.len(), chunk_size, chunks - 1);
    }
    assert(secret.subrange(0, secret.len() as int) =~= secret);
}

/// A chunk, read as a number, is below a modulus of `8 * chunk_size + 1`
/// bits.
pub proof fn lemma_chunk_below_modulus(secret: Seq<u8>, chunk_size: nat, j: int, p: nat)
    requires
        chunk_size >= 1,
        0 <= j < chunk_count(secret.len(), chunk_size),
        pow2(8 * chunk_size) <= p,
    ensures
        le_value(chunk_of(secret, chunk_size, j)) < p,
{
    let chunk = chunk_of(secret, chunk_size, j);
    lemma_chunks(secret.len(), chunk_size, j);
    lemma_le_value_bound(chunk);
    lemma_pow_increases(256, chunk.len(), chunk_size);
    lemma_pow256(chunk_size);
}

/// One step of the weight product of `x`.
pub open spec fn weight_step(x: nat, p: nat) -> spec_fn(nat, ShareView) -> nat {
    |acc: nat, s: ShareView|
        if s.key == x {
            acc
        } else {
            acc * weight_factor(s.key, x, p)
        }
}

/// One step of the weighted sum for `chunk`.
pub open spec fn sum_step(all: Seq<ShareView>, chunk: int, p: nat) -> spec_fn(
    nat,
    ShareView,
) -> nat {
    |acc: nat, s: ShareView| acc + s.values[chunk].int * weight(all, s.key, p)
}

/// The weight product is the fold of its steps over the shares.
pub proof fn lemma_weight_product_is_fold(shares: Seq<ShareView>, x: nat, p: nat)
    ensures
        weight_product(shares, x, p) == shares.fold_left(1nat, weight_step(x, p)),
    decreases shares.len(),
{
    if shares.len() > 0 {
        lemma_weight_product_is_fold(shares.drop_last(), x, p);
    }
}

/// The weighted sum is the fold of its steps over the shares.
pub proof fn lemma_weighted_sum_is_fold(
    part: Seq<ShareView>,
    all: Seq<ShareView>,
    chunk: int,
    p: nat,
)
    ensures
        weighted_sum(part, all, chunk, p) == part.fold_left(0nat, sum_step(all, chunk, p)),
    decreases part.len(),
{
    if part.len() > 0 {
        lemma_weighted_sum_is_fold(part.drop_last(), all, chunk, p);
    }
}

/// The weight of a key does not depend on the order of the shares.
pub proof fn lemma_weight_permutation(a: Seq<ShareView>, b: Seq<ShareView>, x: nat, p: nat)
    requires
        a.to_multiset() == b.to_multiset(),
    ensures
        weight(a, x, p) == weight(b, x, p),
{
    let f = weight_step(x, p);
    assert(commutative_foldl(f)) by {
        assert forall|s: ShareView, t: ShareView, v: nat| #[trigger]
            f(f(v, s), t) == f(f(v, t), s) by {
            let fs = weight_factor(s.key, x, p);
            let ft = weight_factor(t.key, x, p);
            assert((v * fs) * ft == (v * ft) * fs) by (nonlinear_arith);
        }
    }
    lemma_fold_left_permutation(a, b, f, 1nat);
    lemma_weight_product_is_fold(a, x, p);
    lemma_weight_product_is_fold(b, x, p);
}

/// The weighted sum does not depend on the order of the shares.
pub proof fn lemma_weighted_sum_permutation(
    a: Seq<ShareView>,
    b: Seq<ShareView>,
    chunk: int,
    p: nat,
)
    requires
        a.to_multiset() == b.to_multiset(),
    ensures
        weighted_sum(a, a, chunk, p) == weighted_sum(b, b, chunk, p),
{
    let fa = sum_step(a, chunk, p);
    let fb = sum_step(b, chunk, p);
    assert forall|v: nat, s: ShareView| #[trigger] fa(v, s) == fb(v, s) by {
        lemma_weight_permutation(a, b, s.key, p);
    }
    assert(fa =~= fb);
    assert(commutative_foldl(fb)) by {
        assert forall|s: ShareView, t: ShareView, v: nat| #[trigger]
            fb(fb(v, s), t) == fb(fb(v, t), s) by {}
    }
    lemma_fold_left_permutation(a, b, fb, 0nat);
    lemma_weighted_sum_is_fold(a, a, chunk, p);
    lemma_weighted_sum_is_fold(b, b, chunk, p);
}

/// The bytes recovered for the first chunks do not depend on the order of
/// the shares, where the first shares agree on modulus and chunk lengths.
pub proof fn lemma_recovered_bytes_permutation(a: Seq<ShareView>, b: Seq<ShareView>, chunks: nat)
    requires
        a.to_multiset() == b.to_multiset(),
        a[0].prime == b[0].prime,
        chunks <= a[0].values.len(),
        forall|j: int|
            0 <= j < chunks ==> (#[trigger] a[0].values[j]).chunk_size == b[0].values[j].chunk_size,
    ensures
        recovered_bytes(a, chunks) == recovered_bytes(b, chunks),
    decreases chunks,
{
    if chunks > 0 {
        lemma_recovered_bytes_permutation(a, b, (chunks - 1) as nat);
        lemma_weighted_sum_permutation(a, b, chunks - 1, a[0].prime);
        assert(a[0].values[chunks - 1].chunk_size == b[0].values[chunks - 1].chunk_size);
    }
}

} // verus!
