//! Shamir's secret sharing over a prime field.
//!
//! A byte secret is cut into chunks; each chunk becomes the constant term of
//! a random polynomial over a prime field, and every participant receives the
//! value of each polynomial at its own key. Any `threshold` shares rebuild
//! the secret by Lagrange interpolation at zero.

pub mod arith;
pub mod bigint;
pub mod bytes;
pub mod field;
pub mod lagrange;
pub mod laws;
pub mod modular;
pub mod polynomial;
pub mod recovery;
pub mod sharing;

use crate::arith::{lemma_div_rounds_up, lemma_pow256};
use crate::bigint::{
    big_add, big_eq, big_modpow, big_mul, big_one, big_rem, big_sub, big_value, big_zero,
    from_le_bytes, from_usize, to_le_bytes,
};
use crate::bytes::{le_bytes, lemma_le_value_bound, lemma_le_value_digit};
use crate::field::{share_field, Field};
use crate::polynomial::Polynomial;
use crate::sharing::{
    chunk_count, chunk_of, coefficients_fit, distinct_keys, is_sharing, is_sharing_over,
    is_sized_for, mod_difference,
    reconstruction, recovered, recovered_bytes, same_field, same_length, shared_values, sharing,
    weight, weight_factor, weight_product, weighted_sum, ShareView, ValueView,
};
use num_bigint::BigUint;
use std::rc::Rc;
use vstd::arithmetic::div_mod::{
    lemma_add_mod_noop_right, lemma_basic_div, lemma_mod_add_multiples_vanish,
    lemma_mul_mod_noop_left, lemma_small_mod, lemma_sub_mod_noop_right,
};
use vstd::arithmetic::power::lemma_pow_increases;
use vstd::arithmetic::power2::pow2;
use vstd::prelude::*;

verus! {

/// What can go wrong while sharing or rebuilding a secret.
#[derive(Debug, Clone, Copy, PartialEq, Eq, Structural)]
pub enum SSSError {
    /// Reconstruction was asked for with no share at all.
    NoShares,
    /// No probable prime of the requested bit length was obtained.
    NoPrime,
    /// The shares do not all have the same modulus.
    MismatchedField,
    /// The shares do not all have the same number of values.
    MismatchedLength,
    /// Two shares have the same key.
    DuplicateKey,
}

impl SSSError {
    /// The error in words.
    pub fn message(&self) -> (text: &'static str)
        ensures
            *self == SSSError::NoShares ==> text@ == "No shares"@,
            *self == SSSError::NoPrime ==> text@ == "No prime"@,
            *self == SSSError::MismatchedField ==> text@ == "Shares of different fields"@,
            *self == SSSError::MismatchedLength ==> text@ == "Shares of different lengths"@,
            *self == SSSError::DuplicateKey ==> text@ == "Shares with the same key"@,
    {
        match self {
            SSSError::NoShares => "No shares",
            SSSError::NoPrime => "No prime",
            SSSError::MismatchedField => "Shares of different fields",
            SSSError::MismatchedLength => "Shares of different lengths",
            SSSError::DuplicateKey => "Shares with the same key",
        }
    }
}

/// The value of one chunk's polynomial at a share's key, with the number of
/// bytes of that chunk.
#[derive(Debug)]
pub struct Value {
    chunk_size: usize,
    int: BigUint,
}

impl View for Value {
    type V = ValueView;

    closed spec fn view(&self) -> ValueView {
        ValueView { chunk_size: self.chunk_size as nat, int: big_value(self.int) }
    }
}

impl Value {
    /// The number of bytes of the chunk.
    pub fn chunk_size(&self) -> (len: usize)
        ensures
            len == self@.chunk_size,
    {
        self.chunk_size
    }

    /// The value of the chunk's polynomial at the share's key.
    pub fn number(&self) -> (y: &BigUint)
        ensures
            big_value(*y) == self@.int,
    {
        &self.int
    }
}

/// The views of a sequence of values.
pub open spec fn value_views(values: Seq<Value>) -> Seq<ValueView> {
    Seq::new(values.len(), |j: int| values[j]@)
}

/// One participant's share: its key, and one value for each chunk of the
/// secret.
#[derive(Debug)]
pub struct Share {
    key: usize,
    val: Vec<Value>,
    field: Rc<Field>,
}

impl View for Share {
    type V = ShareView;

    closed spec fn view(&self) -> ShareView {
        ShareView {
            key: self.key as nat,
            values: value_views(self.val@),
            prime: self.field.modulus(),
        }
    }
}

/// The views of a sequence of shares.
pub open spec fn share_views(shares: Seq<Share>) -> Seq<ShareView> {
    Seq::new(shares.len(), |k: int| shares[k]@)
}

impl Share {
    /// The participant's key.
    pub fn key(&self) -> (key: usize)
        ensures
            key == self@.key,
    {
        self.key
    }

    /// The values of the share, one for each chunk.
    pub fn values(&self) -> (values: &Vec<Value>)
        ensures
            value_views(values@) == self@.values,
    {
        &self.val
    }

    /// The modulus of the field in which the share was made.
    pub fn prime(&self) -> (prime: &BigUint)
        ensures
            big_value(*prime) == self@.prime,
            self@.prime >= 0x10000,
    {
        self.field.prime()
    }
}

/// Shares without values for the keys `1..=n`, all in the given field.
pub fn blank_shares(n: usize, field: &Rc<Field>) -> (shares: Vec<Share>)
    ensures
        shares.len() == n,
        forall|k: int|
            0 <= k < n ==> (#[trigger] shares[k])@ == (ShareView {
                key: (k + 1) as nat,
                values: Seq::empty(),
                prime: field.modulus(),
            }),
{
    let mut shares: Vec<Share> = Vec::new();
    let mut key: usize = 0;
    while key < n
        invariant
            key <= n,
            shares.len() == key,
            forall|k: int|
                0 <= k < key ==> (#[trigger] shares[k])@ == (ShareView {
                    key: (k + 1) as nat,
                    values: Seq::empty(),
                    prime: field.modulus(),
                }),
        decreases n - key,
    {
        let share = Share { key: key + 1, val: Vec::new(), field: share_field(field) };
        assert(share@.values =~= Seq::empty());
        shares.push(share);
        key += 1;
    }
    shares
}

/// Gives every share one more value: that of `polynomial` at the share's
/// key, recorded with `chunk_len` as the length of the chunk.
pub fn deal_chunk(shares: &mut Vec<Share>, polynomial: &Polynomial, chunk_len: usize)
    ensures
        final(shares).len() == old(shares).len(),
        forall|k: int|
            0 <= k < old(shares).len() ==> (#[trigger] final(shares)[k])@ == (ShareView {
                values: old(shares)[k]@.values.push(
                    ValueView {
                        chunk_size: chunk_len as nat,
                        int: polynomial.eval(old(shares)[k]@.key),
                    },
                ),
                ..old(shares)[k]@
            }),
{
    let mut k: usize = 0;
    while k < shares.len()
        invariant
            k <= shares.len(),
            shares.len() == old(shares).len(),
            forall|i: int| k <= i < shares.len() ==> shares[i] == old(shares)[i],
            forall|i: int|
                0 <= i < k ==> (#[trigger] shares[i])@ == (ShareView {
                    values: old(shares)[i]@.values.push(
                        ValueView {
                            chunk_size: chunk_len as nat,
                            int: polynomial.eval(old(shares)[i]@.key),
                        },
                    ),
                    ..old(shares)[i]@
                }),
        decreases shares.len() - k,
    {
        let y = polynomial.call(shares[k].key);
        let ghost before = shares[k as int];
        shares[k].val.push(Value { chunk_size: chunk_len, int: y });
        assert(shares[k as int]@.values =~= before@.values.push(
            ValueView { chunk_size: chunk_len as nat, int: polynomial.eval(before@.key) },
        ));
        k += 1;
    }
}

/// Splits `secret` into `n` shares over the given field, any `threshold` of
/// which give it back.
///
/// The secret is cut into chunks of `chunk_size` bytes, the last one
/// possibly shorter. Each chunk, read as a little-endian number, is the
/// constant term of a fresh random polynomial of degree `threshold - 1`,
/// and the share with the key `k` receives the value of each polynomial at
/// `k`. The modulus must have the size for the chunks.
pub fn distribute_in(
    field: &Rc<Field>,
    secret: &[u8],
    chunk_size: usize,
    n: usize,
    threshold: usize,
) -> (shares: Vec<Share>)
    requires
        1 <= chunk_size,
        1 <= threshold,
        is_sized_for(field.modulus(), chunk_size as nat),
    ensures
        shares.len() == n,
        is_sharing_over(
            share_views(shares@),
            secret@,
            chunk_size as nat,
            n as nat,
            threshold as nat,
            field.modulus(),
        ),
        forall|k: int|
            0 <= k < n ==> (#[trigger] shares[k])@.key == k + 1 && shares[k]@.values.len()
                == chunk_count(secret@.len(), chunk_size as nat) && shares[k]@.prime
                == field.modulus(),
{
    let ghost prime = field.modulus();
    let ghost len = secret@.len();
    let ghost c = chunk_size as nat;
    let mut shares = blank_shares(n, field);
    let ghost mut coefficients: Seq<Seq<nat>> = Seq::empty();
    let ghost mut j: int = 0;
    let mut start: usize = 0;
    proof {
        lemma_basic_div(c - 1, c as int);
        assert forall|k: int| 0 <= k < n implies (#[trigger] shares[k])@.values == shared_values(
            secret@,
            c,
            prime,
            coefficients,
            (k + 1) as nat,
            0,
        ) by {
            assert(shares[k]@.values =~= shared_values(
                secret@,
                c,
                prime,
                coefficients,
                (k + 1) as nat,
                0,
            ));
        }
    }
    while start < secret.len()
        invariant
            1 <= chunk_size,
            1 <= threshold,
            len == secret@.len(),
            c == chunk_size,
            prime == field.modulus(),
            pow2(8 * c) <= prime < pow2(8 * c + 1),
            start <= secret.len(),
            0 <= j,
            start < len ==> start == j * c,
            j == chunk_count(start as nat, c),
            coefficients.len() == j,
            forall|i: int| 0 <= i < j ==> (#[trigger] coefficients[i]).len() == threshold - 1,
            forall|i: int, m: int|
                0 <= i < j && 0 <= m < coefficients[i].len() ==> (#[trigger] coefficients[i][m])
                    < prime,
            shares.len() == n,
            forall|k: int|
                0 <= k < n ==> (#[trigger] shares[k])@ == (ShareView {
                    key: (k + 1) as nat,
                    values: shared_values(
                        secret@,
                        c,
                        prime,
                        coefficients,
                        (k + 1) as nat,
                        j as nat,
                    ),
                    prime,
                }),
        decreases secret.len() - start,
    {
        let end = if secret.len() - start < chunk_size {
            secret.len()
        } else {
            start + chunk_size
        };
        let chunk = &secret[start..end];
        let constant = from_le_bytes(chunk);
        proof {
            assert((j + 1) * c == j * c + c) by (nonlinear_arith);
            assert(chunk@ == chunk_of(secret@, c, j));
            lemma_le_value_bound(chunk@);
            lemma_pow_increases(256, chunk@.len(), c);
            lemma_pow256(c);
            lemma_div_rounds_up(end as int, c as int, j);
        }
        let polynomial = Polynomial::new(share_field(field), constant, threshold - 1);
        let ghost before = shares@;
        deal_chunk(&mut shares, &polynomial, end - start);
        proof {
            let extended = coefficients.push(polynomial.higher_terms());
            assert forall|k: int| 0 <= k < n implies (#[trigger] shares[k])@ == (ShareView {
                key: (k + 1) as nat,
                values: shared_values(secret@, c, prime, extended, (k + 1) as nat, (j + 1) as nat),
                prime,
            }) by {
                assert(before[k]@.key == k + 1);
                assert(shares[k]@.values =~= shared_values(
                    secret@,
                    c,
                    prime,
                    extended,
                    (k + 1) as nat,
                    (j + 1) as nat,
                ));
            }
            coefficients = extended;
            j = j + 1;
        }
        start = end;
    }
    proof {
        assert(coefficients_fit(coefficients, len, c, threshold as nat, prime));
        assert(share_views(shares@) =~= sharing(secret@, c, n as nat, prime, coefficients));
    }
    shares
}

/// Splits `secret` into `n` shares, any `threshold` of which give it back.
///
/// A field with a modulus of `8 * chunk_size + 1` bits is made, above every
/// chunk read as a little-endian number, and the secret is shared over it
/// as `distribute_in` does.
///
/// The sharing fails only if no modulus of that size was found. Shares can
/// be told apart in reconstruction only while no two keys are congruent
/// modulo the modulus.
pub fn distribute(secret: &[u8], chunk_size: usize, n: usize, threshold: usize) -> (shares: Result<
    Vec<Share>,
    SSSError,
>)
    requires
        2 <= chunk_size <= (usize::MAX - 1) / 8,
        1 <= threshold,
    ensures
        shares matches Ok(s) ==> is_sharing(
            share_views(s@),
            secret@,
            chunk_size as nat,
            n as nat,
            threshold as nat,
        ),
        shares matches Ok(s) ==> s.len() == n && forall|k: int|
            0 <= k < n ==> (#[trigger] s[k])@.key == k + 1 && s[k]@.values.len() == chunk_count(
                secret@.len(),
                chunk_size as nat,
            ) && s[k]@.prime % 2 == 1,
        shares matches Err(e) ==> e == SSSError::NoPrime,
{
    match Field::new(chunk_size * 8 + 1) {
        Ok(field) => {
            let field = Rc::new(field);
            Ok(distribute_in(&field, secret, chunk_size, n, threshold))
        },
        Err(e) => Err(e),
    }
}

/// The difference `a - b` as a residue of `prime`. The modulus is added
/// before `b`, reduced, is taken away, so that no step goes below zero.
pub fn mod_sub(a: &BigUint, b: &BigUint, prime: &BigUint) -> (difference: BigUint)
    requires
        big_value(*prime) > 0,
    ensures
        big_value(difference) == mod_difference(big_value(*a), big_value(*b), big_value(*prime)),
{
    let reduced = big_rem(b, prime);
    let negated = big_sub(prime, &reduced);
    let shifted = big_add(&negated, a);
    proof {
        let p = big_value(*prime) as int;
        lemma_sub_mod_noop_right(big_value(*a) as int, big_value(*b) as int, p);
        lemma_mod_add_multiples_vanish(big_value(*a) - (big_value(*b) % big_value(*prime)), p);
    }
    big_rem(&shifted, prime)
}

/// The weight of `current` among `shares` modulo `prime`: the product, over
/// the shares `s` with another key, of `s.key / (s.key - current.key)`, where
/// the division is a multiplication by the power `prime - 2`.
fn beta(prime: &BigUint, current: &Share, shares: &[Share]) -> (w: BigUint)
    requires
        big_value(*prime) >= 2,
    ensures
        big_value(w) == weight(share_views(shares@), current@.key, big_value(*prime)),
{
    let ghost p = big_value(*prime);
    let ghost x = current@.key;
    let ghost views = share_views(shares@);
    let two = from_usize(2);
    let pm2 = big_sub(prime, &two);
    let mut res = big_one();
    let mut i: usize = 0;
    proof {
        lemma_small_mod(1, p);
        assert(views.take(0).len() == 0);
    }
    while i < shares.len()
        invariant
            i <= shares.len(),
            p == big_value(*prime),
            p >= 2,
            x == current@.key,
            views == share_views(shares@),
            big_value(pm2) == p - 2,
            big_value(res) == weight(views.take(i as int), x, p),
        decreases shares.len() - i,
    {
        let s = &shares[i];
        proof {
            assert(views.take(i + 1).drop_last() == views.take(i as int));
            assert(views.take(i + 1).last() == s@);
        }
        if s.key != current.key {
            let xi = from_usize(s.key);
            let x_big = from_usize(current.key);
            let difference = mod_sub(&xi, &x_big, prime);
            let inverse = big_modpow(&difference, &pm2, prime);
            let factor = big_mul(&inverse, &xi);
            let product = big_mul(&res, &factor);
            proof {
                let ki = s@.key;
                assert(big_value(factor) == weight_factor(ki, x, p)) by (nonlinear_arith)
                    requires
                        big_value(factor) == big_value(inverse) * ki,
                        weight_factor(ki, x, p) == ki * big_value(inverse),
                ;
                lemma_mul_mod_noop_left(
                    weight_product(views.take(i as int), x, p) as int,
                    big_value(factor) as int,
                    p as int,
                );
            }
            res = big_rem(&product, prime);
        }
        i += 1;
    }
    proof {
        assert(views.take(i as int) == views);
    }
    res
}

/// The weight of `current` among `shares` modulo `prime`, as
/// `reconstruct` uses it.
pub fn beta_wrapper(prime: &BigUint, current: &Share, shares: &[Share]) -> (w: BigUint)
    requires
        big_value(*prime) >= 2,
    ensures
        big_value(w) == weight(share_views(shares@), current@.key, big_value(*prime)),
{
    beta(prime, current, shares)
}

/// Rebuilds the bytes that `shares` give.
///
/// The modulus, the number of chunks and the length of each chunk are
/// those of the first share. For each chunk the values of the shares are
/// summed with their weights, and the sum is written in the chunk's length
/// of little-endian bytes. With shares of one `distribute` call, with
/// distinct keys and at least the threshold of them, this is the secret;
/// with fewer, or with shares that do not belong together, it is some
/// other byte string.
pub fn reconstruct(shares: &[Share]) -> (secret: Result<Vec<u8>, SSSError>)
    requires
        forall|i: int|
            0 <= i < shares.len() ==> (#[trigger] shares[i])@.values.len()
                >= shares[0]@.values.len(),
    ensures
        shares.len() == 0 ==> secret == Err::<Vec<u8>, SSSError>(SSSError::NoShares),
        shares.len() > 0 ==> secret is Ok && secret->Ok_0@ == reconstruction(
            share_views(shares@),
        ),
{
    if shares.len() == 0 {
        return Err(SSSError::NoShares);
    }
    let ghost views = share_views(shares@);
    let prime = shares[0].prime();
    let ghost p = big_value(*prime);
    let mut betas: Vec<BigUint> = Vec::new();
    let mut i: usize = 0;
    while i < shares.len()
        invariant
            i <= shares.len(),
            p == big_value(*prime),
            p >= 0x10000,
            views == share_views(shares@),
            betas.len() == i,
            forall|k: int|
                0 <= k < i ==> big_value(#[trigger] betas[k]) == weight(views, views[k].key, p),
        decreases shares.len() - i,
    {
        let w = beta(prime, &shares[i], shares);
        betas.push(w);
        i += 1;
    }
    let mut res: Vec<u8> = Vec::new();
    let chunks = shares[0].val.len();
    let mut chunk: usize = 0;
    while chunk < chunks
        invariant
            chunk <= chunks,
            shares.len() > 0,
            chunks == shares[0].val.len(),
            chunks == views[0].values.len(),
            p == big_value(*prime),
            p == views[0].prime,
            p >= 0x10000,
            views == share_views(shares@),
            forall|k: int|
                0 <= k < shares.len() ==> (#[trigger] shares[k])@.values.len() >= chunks,
            betas.len() == shares.len(),
            forall|k: int|
                0 <= k < betas.len() ==> big_value(#[trigger] betas[k]) == weight(
                    views,
                    views[k].key,
                    p,
                ),
            res@ == recovered_bytes(views, chunk as nat),
        decreases chunks - chunk,
    {
        let mut acc = big_zero();
        let mut k: usize = 0;
        proof {
            lemma_small_mod(0, p);
            assert(views.take(0).len() == 0);
        }
        while k < shares.len()
            invariant
                k <= shares.len(),
                chunk < chunks,
                p == big_value(*prime),
                p >= 0x10000,
                views == share_views(shares@),
                forall|m: int|
                    0 <= m < shares.len() ==> (#[trigger] shares[m])@.values.len() >= chunks,
                betas.len() == shares.len(),
                forall|m: int|
                    0 <= m < betas.len() ==> big_value(#[trigger] betas[m]) == weight(
                        views,
                        views[m].key,
                        p,
                    ),
                big_value(acc) == weighted_sum(views.take(k as int), views, chunk as int, p) % p,
            decreases shares.len() - k,
        {
            let share = &shares[k];
            assert(share@.values.len() >= chunks);
            let value = &share.val[chunk];
            let term = big_mul(&value.int, &betas[k]);
            let sum = big_add(&acc, &term);
            proof {
                assert(views.take(k + 1).drop_last() == views.take(k as int));
                assert(views.take(k + 1).last() == share@);
                assert(share@.values[chunk as int] == value@);
                lemma_add_mod_noop_right(
                    big_value(term) as int,
                    weighted_sum(views.take(k as int), views, chunk as int, p) as int,
                    p as int,
                );
            }
            acc = big_rem(&sum, prime);
            k += 1;
        }
        let first = &shares[0];
        assert(first@.values.len() >= chunks);
        let len = first.val[chunk].chunk_size;
        let mut bytes = to_le_bytes(&acc);
        let ghost shortest = bytes@;
        bytes.resize(len, 0);
        proof {
            assert(views.take(k as int) == views);
            assert(first@.values[chunk as int] == first.val[chunk as int]@);
            let v = big_value(acc);
            assert(v == recovered(views, chunk as int));
            assert(bytes@ =~= le_bytes(v, len as nat)) by {
                assert forall|m: int| 0 <= m < len implies bytes@[m] == le_bytes(
                    v,
                    len as nat,
                )[m] by {
                    lemma_le_value_digit(shortest, m as nat);
                    if m < shortest.len() {
                        if len > shortest.len() {
                            assert(bytes@.subrange(0, shortest.len() as int)[m] == bytes@[m]);
                        }
                    }
                }
            }
        }
        res.append(&mut bytes);
        chunk += 1;
    }
    Ok(res)
}

/// Rebuilds the bytes that `shares` give, after checking that they belong
/// together: that they have one modulus, equally many values, and keys
/// that all differ. The first of these that fails is reported.
pub fn reconstruct_strict(shares: &[Share]) -> (secret: Result<Vec<u8>, SSSError>)
    ensures
        shares.len() == 0 ==> secret == Err::<Vec<u8>, SSSError>(SSSError::NoShares),
        shares.len() > 0 && !same_field(share_views(shares@)) ==> secret == Err::<
            Vec<u8>,
            SSSError,
        >(SSSError::MismatchedField),
        shares.len() > 0 && same_field(share_views(shares@)) && !same_length(
            share_views(shares@),
        ) ==> secret == Err::<Vec<u8>, SSSError>(SSSError::MismatchedLength),
        shares.len() > 0 && same_field(share_views(shares@)) && same_length(share_views(shares@))
            && !distinct_keys(share_views(shares@)) ==> secret == Err::<Vec<u8>, SSSError>(
            SSSError::DuplicateKey,
        ),
        shares.len() > 0 && same_field(share_views(shares@)) && same_length(share_views(shares@))
            && distinct_keys(share_views(shares@)) ==> secret is Ok && secret->Ok_0@
            == reconstruction(share_views(shares@)),
{
    if shares.len() == 0 {
        return Err(SSSError::NoShares);
    }
    let ghost views = share_views(shares@);
    let prime = shares[0].prime();
    let mut i: usize = 1;
    while i < shares.len()
        invariant
            1 <= i <= shares.len(),
            views == share_views(shares@),
            big_value(*prime) == views[0].prime,
            forall|k: int| 0 <= k < i ==> (#[trigger] views[k]).prime == views[0].prime,
        decreases shares.len() - i,
    {
        if !big_eq(shares[i].prime(), prime) {
            assert(views[i as int].prime != views[0].prime);
            return Err(SSSError::MismatchedField);
        }
        i += 1;
    }
    let chunks = shares[0].values().len();
    let mut i: usize = 1;
    while i < shares.len()
        invariant
            1 <= i <= shares.len(),
            views == share_views(shares@),
            same_field(views),
            chunks == views[0].values.len(),
            forall|k: int| 0 <= k < i ==> (#[trigger] views[k]).values.len() == chunks,
        decreases shares.len() - i,
    {
        if shares[i].values().len() != chunks {
            assert(views[i as int].values.len() != views[0].values.len());
            return Err(SSSError::MismatchedLength);
        }
        i += 1;
    }
    let mut i: usize = 0;
    while i < shares.len()
        invariant
            i <= shares.len(),
            views == share_views(shares@),
            same_field(views),
            same_length(views),
            forall|a: int, b: int|
                0 <= a < i && a < b < shares.len() ==> (#[trigger] views[a]).key != (
                #[trigger] views[b]).key,
        decreases shares.len() - i,
    {
        let mut j: usize = i + 1;
        while j < shares.len()
            invariant
                i < j <= shares.len(),
                views == share_views(shares@),
                same_field(views),
                same_length(views),
                forall|b: int| i < b < j ==> views[i as int].key != (#[trigger] views[b]).key,
            decreases shares.len() - j,
        {
            if shares[i].key() == shares[j].key() {
                assert(views[i as int].key == views[j as int].key);
                return Err(SSSError::DuplicateKey);
            }
            j += 1;
        }
        i += 1;
    }
    assert forall|k: int| 0 <= k < shares.len() implies (#[trigger] shares[k])@.values.len()
        >= shares[0]@.values.len() by {
        assert(views[k].values.len() == views[0].values.len());
    }
    reconstruct(shares)
}

} // verus!
