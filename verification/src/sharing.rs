//! What a sharing of a secret is, and what a set of shares gives back.

use crate::bytes::{le_bytes, le_value};
use crate::polynomial::poly_eval;
use vstd::arithmetic::power::pow;
use vstd::arithmetic::power2::pow2;
use vstd::prelude::*;

verus! {

/// One value of a share: the value of a chunk's polynomial at the share's
/// key, with the number of bytes of that chunk.
pub struct ValueView {
    pub chunk_size: nat,
    pub int: nat,
}

/// A share as plain numbers: the participant's key, one value for each
/// chunk of the secret, in the order of the chunks, and the modulus.
pub struct ShareView {
    pub key: nat,
    pub values: Seq<ValueView>,
    pub prime: nat,
}

/// The number of bytes that the values record together.
pub open spec fn recorded_length(values: Seq<ValueView>) -> nat
    decreases values.len(),
{
    if values.len() == 0 {
        0
    } else {
        recorded_length(values.drop_last()) + values.last().chunk_size
    }
}

/// The number of chunks of at most `chunk_size` bytes in `len` bytes.
pub open spec fn chunk_count(len: nat, chunk_size: nat) -> nat {
    ((len + chunk_size - 1) / (chunk_size as int)) as nat
}

/// Where chunk `j` starts; for `j` past the last chunk, the end.
pub open spec fn chunk_start(len: nat, chunk_size: nat, j: int) -> int {
    if j * chunk_size <= len {
        j * chunk_size
    } else {
        len as int
    }
}

/// Chunk `j` of the secret: `chunk_size` bytes, but for a last chunk that
/// may be shorter.
pub open spec fn chunk_of(secret: Seq<u8>, chunk_size: nat, j: int) -> Seq<u8> {
    secret.subrange(
        chunk_start(secret.len(), chunk_size, j),
        chunk_start(secret.len(), chunk_size, j + 1),
    )
}

/// The value that the key `x` receives for chunk `j`: the value at `x` of
/// the polynomial with the chunk's little-endian value as constant term and
/// `coefficients[j]` as higher coefficients, with the chunk's length.
pub open spec fn shared_value(
    secret: Seq<u8>,
    chunk_size: nat,
    prime: nat,
    coefficients: Seq<Seq<nat>>,
    x: nat,
    j: int,
) -> ValueView {
    ValueView {
        chunk_size: chunk_of(secret, chunk_size, j).len(),
        int: poly_eval(le_value(chunk_of(secret, chunk_size, j)), coefficients[j], x, prime),
    }
}

/// The values that the key `x` receives for the first `chunks` chunks.
pub open spec fn shared_values(
    secret: Seq<u8>,
    chunk_size: nat,
    prime: nat,
    coefficients: Seq<Seq<nat>>,
    x: nat,
    chunks: nat,
) -> Seq<ValueView> {
    Seq::new(chunks, |j: int| shared_value(secret, chunk_size, prime, coefficients, x, j))
}

/// The shares of `secret` for the keys `1..=n`.
pub open spec fn sharing(
    secret: Seq<u8>,
    chunk_size: nat,
    n: nat,
    prime: nat,
    coefficients: Seq<Seq<nat>>,
) -> Seq<ShareView> {
    Seq::new(
        n,
        |k: int|
            ShareView {
                key: (k + 1) as nat,
                values: shared_values(
                    secret,
                    chunk_size,
                    prime,
                    coefficients,
                    (k + 1) as nat,
                    chunk_count(secret.len(), chunk_size),
                ),
                prime,
            },
    )
}

/// Whether `coefficients` holds, for each chunk of a secret of `len` bytes,
/// `threshold - 1` numbers below `prime`.
pub open spec fn coefficients_fit(
    coefficients: Seq<Seq<nat>>,
    len: nat,
    chunk_size: nat,
    threshold: nat,
    prime: nat,
) -> bool {
    &&& coefficients.len() == chunk_count(len, chunk_size)
    &&& forall|j: int|
        0 <= j < coefficients.len() ==> (#[trigger] coefficients[j]).len() == threshold - 1
    &&& forall|j: int, m: int|
        0 <= j < coefficients.len() && 0 <= m < coefficients[j].len() ==> (
        #[trigger] coefficients[j][m]) < prime
}

/// Whether `shares` is a sharing of `secret` among `n` participants with
/// the given threshold over the modulus `prime`: for some choice of the
/// random coefficients.
pub open spec fn is_sharing_over(
    shares: Seq<ShareView>,
    secret: Seq<u8>,
    chunk_size: nat,
    n: nat,
    threshold: nat,
    prime: nat,
) -> bool {
    exists|coefficients: Seq<Seq<nat>>|
        {
            &&& coefficients_fit(coefficients, secret.len(), chunk_size, threshold, prime)
            &&& shares == #[trigger] sharing(secret, chunk_size, n, prime, coefficients)
        }
}

/// Whether `prime` has `8 * chunk_size + 1` bits, and so lies above every
/// chunk of `chunk_size` bytes.
pub open spec fn is_sized_for(prime: nat, chunk_size: nat) -> bool {
    pow2(8 * chunk_size) <= prime < pow2(8 * chunk_size + 1)
}

/// Whether `shares` is a sharing of `secret` among `n` participants with
/// the given threshold: over some modulus of `8 * chunk_size + 1` bits.
pub open spec fn is_sharing(
    shares: Seq<ShareView>,
    secret: Seq<u8>,
    chunk_size: nat,
    n: nat,
    threshold: nat,
) -> bool {
    exists|prime: nat|
        {
            &&& is_sized_for(prime, chunk_size)
            &&& #[trigger] is_sharing_over(shares, secret, chunk_size, n, threshold, prime)
        }
}

/// The modulus of a sharing.
pub open spec fn sharing_modulus(
    shares: Seq<ShareView>,
    secret: Seq<u8>,
    chunk_size: nat,
    n: nat,
    threshold: nat,
) -> nat {
    choose|prime: nat|
        {
            &&& is_sized_for(prime, chunk_size)
            &&& #[trigger] is_sharing_over(shares, secret, chunk_size, n, threshold, prime)
        }
}

/// Coefficients that give a sharing over `prime`.
pub open spec fn sharing_coefficients(
    shares: Seq<ShareView>,
    secret: Seq<u8>,
    chunk_size: nat,
    n: nat,
    threshold: nat,
    prime: nat,
) -> Seq<Seq<nat>> {
    choose|coefficients: Seq<Seq<nat>>|
        {
            &&& coefficients_fit(coefficients, secret.len(), chunk_size, threshold, prime)
            &&& shares == #[trigger] sharing(secret, chunk_size, n, prime, coefficients)
        }
}

/// Whether all shares have the modulus of the first.
pub open spec fn same_field(shares: Seq<ShareView>) -> bool {
    forall|i: int| 0 <= i < shares.len() ==> (#[trigger] shares[i]).prime == shares[0].prime
}

/// Whether all shares have as many values as the first.
pub open spec fn same_length(shares: Seq<ShareView>) -> bool {
    forall|i: int|
        0 <= i < shares.len() ==> (#[trigger] shares[i]).values.len() == shares[0].values.len()
}

/// Whether no two shares have the same key.
pub open spec fn distinct_keys(shares: Seq<ShareView>) -> bool {
    forall|i: int, j: int|
        0 <= i < j < shares.len() ==> (#[trigger] shares[i]).key != (#[trigger] shares[j]).key
}

/// Whether all shares have the modulus of the first, as many values, and
/// the same chunk length for each value.
pub open spec fn same_layout(shares: Seq<ShareView>) -> bool {
    forall|i: int|
        0 <= i < shares.len() ==> {
            &&& (#[trigger] shares[i]).prime == shares[0].prime
            &&& shares[i].values.len() == shares[0].values.len()
            &&& forall|j: int|
                0 <= j < shares[0].values.len() ==> (#[trigger] shares[i].values[j]).chunk_size
                    == shares[0].values[j].chunk_size
        }
}

/// The difference `xi - x` as a residue of `prime`.
pub open spec fn mod_difference(xi: nat, x: nat, prime: nat) -> nat {
    ((xi - x) % (prime as int)) as nat
}

/// The inverse of `a` modulo a prime, by Fermat's little theorem: `a` to the
/// power `prime - 2`.
pub open spec fn mod_inverse(a: nat, prime: nat) -> nat {
    (pow(a as int, (prime - 2) as nat) % (prime as int)) as nat
}

/// The factor that the key `xi` adds to the weight of the key `x`:
/// `xi / (xi - x)`, not yet reduced.
pub open spec fn weight_factor(xi: nat, x: nat, prime: nat) -> nat {
    xi * mod_inverse(mod_difference(xi, x, prime), prime)
}

/// The product of the factors of all shares whose key is not `x`.
pub open spec fn weight_product(shares: Seq<ShareView>, x: nat, prime: nat) -> nat
    decreases shares.len(),
{
    if shares.len() == 0 {
        1
    } else if shares.last().key == x {
        weight_product(shares.drop_last(), x, prime)
    } else {
        weight_product(shares.drop_last(), x, prime) * weight_factor(shares.last().key, x, prime)
    }
}

/// The weight of the key `x` among `shares`: the value at zero of the
/// Lagrange basis polynomial of `x`, modulo `prime`.
pub open spec fn weight(shares: Seq<ShareView>, x: nat, prime: nat) -> nat {
    weight_product(shares, x, prime) % prime
}

/// The sum, over the shares of `part`, of the share's value for `chunk`
/// times the share's weight among `all`.
pub open spec fn weighted_sum(
    part: Seq<ShareView>,
    all: Seq<ShareView>,
    chunk: int,
    prime: nat,
) -> nat
    decreases part.len(),
{
    if part.len() == 0 {
        0
    } else {
        weighted_sum(part.drop_last(), all, chunk, prime) + part.last().values[chunk].int * weight(
            all,
            part.last().key,
            prime,
        )
    }
}

/// The number that `shares` give for `chunk`, in the field of the first
/// share.
pub open spec fn recovered(shares: Seq<ShareView>, chunk: int) -> nat {
    weighted_sum(shares, shares, chunk, shares[0].prime) % shares[0].prime
}

/// The bytes that `shares` give for the first `chunks` chunks: each
/// recovered number in as many bytes as the first share records for it.
pub open spec fn recovered_bytes(shares: Seq<ShareView>, chunks: nat) -> Seq<u8>
    decreases chunks,
{
    if chunks == 0 {
        Seq::empty()
    } else {
        recovered_bytes(shares, (chunks - 1) as nat) + le_bytes(
            recovered(shares, chunks - 1),
            shares[0].values[chunks - 1].chunk_size,
        )
    }
}

/// The bytes that `shares` give: one chunk for each value of the first
/// share.
pub open spec fn reconstruction(shares: Seq<ShareView>) -> Seq<u8> {
    recovered_bytes(shares, shares[0].values.len())
}

} // verus!
