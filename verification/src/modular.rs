//! Arithmetic modulo a prime: products of residues, cancellation, and
//! Fermat's little theorem.

use crate::arith::lemma_pow_step;
use vstd::arithmetic::div_mod::{
    lemma_fundamental_div_mod, lemma_mod_bound, lemma_mod_equivalence, lemma_mod_multiples_basic,
    lemma_mul_mod_noop, lemma_mul_mod_noop_left, lemma_mul_mod_noop_right, lemma_small_mod,
    lemma_sub_mod_noop,
};
use vstd::arithmetic::power::{lemma_pow0, pow};
use vstd::prelude::*;
use vstd::seq_lib::{commutative_foldl, lemma_fold_left_permutation};
use vstd::set_lib::{lemma_int_range, lemma_subset_equality, set_int_range};

verus! {

/// Whether `d` divides `n`.
pub open spec fn divides(d: nat, n: nat) -> bool {
    d > 0 && n % d == 0
}

/// Whether `p` is a prime number.
pub open spec fn is_prime(p: nat) -> bool {
    p >= 2 && forall|d: nat| 1 < d < p ==> !#[trigger] divides(d, p)
}

/// Two residues of a prime that are not zero have a product that is not
/// zero modulo the prime.
pub proof fn lemma_residue_product_nonzero(p: nat, a: nat, k: nat)
    requires
        is_prime(p),
        0 < a < p,
        0 < k < p,
    ensures
        (a * k) % p != 0,
    decreases k,
{
    if k == 1 {
        lemma_small_mod(a, p);
        assert(a * 1 == a);
    } else if (a * k) % p == 0 {
        let q = p / k;
        let r = p % k;
        assert(!divides(k, p));
        lemma_fundamental_div_mod(p as int, k as int);
        lemma_mod_bound(p as int, k as int);
        lemma_residue_product_nonzero(p, a, r);
        assert(a * r == a * p - q * (a * k)) by (nonlinear_arith)
            requires
                p == k * q + r,
        ;
        lemma_mod_multiples_basic(a as int, p as int);
        lemma_mul_mod_noop_right(q as int, (a * k) as int, p as int);
        assert(q * 0 == 0);
        lemma_sub_mod_noop((a * p) as int, (q * (a * k)) as int, p as int);
        lemma_small_mod(0, p);
    }
}

/// Two numbers that a prime does not divide have a product that it does not
/// divide.
pub proof fn lemma_prime_product_nonzero(p: nat, x: int, y: int)
    requires
        is_prime(p),
        x % (p as int) != 0,
        y % (p as int) != 0,
    ensures
        (x * y) % (p as int) != 0,
{
    lemma_mul_mod_noop(x, y, p as int);
    lemma_mod_bound(x, p as int);
    lemma_mod_bound(y, p as int);
    lemma_residue_product_nonzero(p, (x % (p as int)) as nat, (y % (p as int)) as nat);
}

/// A factor that a prime does not divide can be cancelled from a
/// congruence.
pub proof fn lemma_prime_cancel(p: nat, x: int, y: int, f: int)
    requires
        is_prime(p),
        f % (p as int) != 0,
        (x * f) % (p as int) == (y * f) % (p as int),
    ensures
        x % (p as int) == y % (p as int),
{
    lemma_mod_equivalence(x * f, y * f, p as int);
    assert((x - y) * f == x * f - y * f) by (nonlinear_arith);
    if (x - y) % (p as int) != 0 {
        lemma_prime_product_nonzero(p, x - y, f);
    }
    lemma_mod_equivalence(x, y, p as int);
}

/// Multiplication as a step of a fold.
pub open spec fn times() -> spec_fn(int, int) -> int {
    |acc: int, x: int| acc * x
}

/// The product of the numbers of a sequence.
pub open spec fn product(s: Seq<int>) -> int {
    s.fold_left(1int, times())
}

/// The order of the factors does not change a product.
pub proof fn lemma_product_permutation(s: Seq<int>, t: Seq<int>)
    requires
        s.to_multiset() == t.to_multiset(),
    ensures
        product(s) == product(t),
{
    assert(commutative_foldl(times())) by {
        assert forall|x: int, y: int, v: int| #[trigger]
            times()(times()(v, x), y) == times()(times()(v, y), x) by {
            assert((v * x) * y == (v * y) * x) by (nonlinear_arith);
        }
    }
    lemma_fold_left_permutation(s, t, times(), 1int);
}

/// The multiples `a, 2a, ..., (p - 1) a` reduced by the prime `p`.
pub open spec fn multiples(p: nat, a: int) -> Seq<int> {
    Seq::new((p - 1) as nat, |i: int| (a * (i + 1)) % (p as int))
}

/// The numbers `1, 2, ..., p - 1`.
pub open spec fn residues(p: nat) -> Seq<int> {
    Seq::new((p - 1) as nat, |i: int| i + 1)
}

/// A multiple `a k` with `0 < k < p` is not divisible by the prime `p`
/// unless `a` is.
proof fn lemma_multiple_nonzero(p: nat, a: int, k: int)
    requires
        is_prime(p),
        a % (p as int) != 0,
        0 < k < p,
    ensures
        (a * k) % (p as int) != 0,
{
    lemma_small_mod(k as nat, p);
    lemma_prime_product_nonzero(p, a, k);
}

/// The reduced multiples of `a` are the numbers `1, ..., p - 1` in some
/// order.
proof fn lemma_multiples_permute(p: nat, a: int)
    requires
        is_prime(p),
        a % (p as int) != 0,
    ensures
        multiples(p, a).to_multiset() == residues(p).to_multiset(),
{
    broadcast use vstd::seq_lib::group_to_multiset_ensures;
    broadcast use vstd::seq_lib::seq_to_set_is_finite;

    let s = multiples(p, a);
    let t = residues(p);
    let m = p as int;
    assert forall|i: int| 0 <= i < s.len() implies 0 < #[trigger] s[i] < m by {
        lemma_multiple_nonzero(p, a, i + 1);
        lemma_mod_bound(a * (i + 1), m);
    }
    assert forall|i: int, j: int| 0 <= i < s.len() && 0 <= j < s.len() && i != j implies s[i]
        != s[j] by {
        if s[i] == s[j] {
            let (lo, hi) = if i < j {
                (i, j)
            } else {
                (j, i)
            };
            lemma_mod_equivalence(a * (hi + 1), a * (lo + 1), m);
            assert(a * (hi + 1) - a * (lo + 1) == a * (hi - lo)) by (nonlinear_arith);
            lemma_multiple_nonzero(p, a, hi - lo);
        }
    }
    assert(s.no_duplicates());
    assert(t.no_duplicates());
    s.unique_seq_to_set();
    t.unique_seq_to_set();
    lemma_int_range(1, m);
    assert(t.to_set() =~= set_int_range(1, m)) by {
        assert forall|v: int| set_int_range(1, m).contains(v) implies t.to_set().contains(v) by {
            assert(t[v - 1] == v);
        }
    }
    assert(s.to_set().subset_of(t.to_set()));
    lemma_subset_equality(s.to_set(), t.to_set());
    s.lemma_multiset_has_no_duplicates();
    t.lemma_multiset_has_no_duplicates();
    assert forall|v: int| s.to_multiset().count(v) == t.to_multiset().count(v) by {
        assert(s.contains(v) <==> s.to_set().contains(v));
        assert(t.contains(v) <==> t.to_set().contains(v));
        if s.contains(v) {
            assert(s.to_multiset().contains(v));
            assert(t.to_multiset().contains(v));
        }
    }
    assert(s.to_multiset() =~= t.to_multiset());
}

/// The product of the first `n` reduced multiples of `a` is congruent to
/// `a^n` times the product of `1, ..., n`.
proof fn lemma_multiples_product(p: nat, a: int, n: nat)
    requires
        p >= 2,
        n <= p - 1,
    ensures
        product(multiples(p, a).take(n as int)) % (p as int) == (pow(a, n) * product(
            residues(p).take(n as int),
        )) % (p as int),
    decreases n,
{
    let s = multiples(p, a);
    let t = residues(p);
    let m = p as int;
    if n == 0 {
        lemma_pow0(a);
        assert(s.take(0).len() == 0);
        assert(t.take(0).len() == 0);
    } else {
        let k = (n - 1) as nat;
        lemma_multiples_product(p, a, k);
        let ps = product(s.take(k as int));
        let pt = product(t.take(k as int));
        assert(s.take(n as int).drop_last() == s.take(k as int));
        assert(t.take(n as int).drop_last() == t.take(k as int));
        assert(product(s.take(n as int)) == ps * ((a * n) % m));
        assert(product(t.take(n as int)) == pt * n);
        lemma_mul_mod_noop_right(ps, a * n, m);
        lemma_mul_mod_noop_left(ps, a * n, m);
        lemma_mul_mod_noop_left(pow(a, k) * pt, a * n, m);
        lemma_pow_step(a, k);
        assert((pow(a, k) * pt) * (a * n) == (pow(a, k) * a) * (pt * n)) by (nonlinear_arith);
    }
}

/// The product of `1, ..., n` is not divisible by a prime above `n`.
proof fn lemma_residues_product_nonzero(p: nat, n: nat)
    requires
        is_prime(p),
        n <= p - 1,
    ensures
        product(residues(p).take(n as int)) % (p as int) != 0,
    decreases n,
{
    let t = residues(p);
    if n == 0 {
        assert(t.take(0).len() == 0);
        lemma_small_mod(1, p);
    } else {
        let k = (n - 1) as nat;
        lemma_residues_product_nonzero(p, k);
        assert(t.take(n as int).drop_last() == t.take(k as int));
        assert(product(t.take(n as int)) == product(t.take(k as int)) * n);
        lemma_small_mod(n, p);
        lemma_prime_product_nonzero(p, product(t.take(k as int)), n as int);
    }
}

/// Fermat's little theorem: a number that the prime `p` does not divide,
/// raised to the power `p - 1`, leaves the remainder one.
pub proof fn lemma_fermat(p: nat, a: int)
    requires
        is_prime(p),
        a % (p as int) != 0,
    ensures
        pow(a, (p - 1) as nat) % (p as int) == 1,
{
    let n = (p - 1) as nat;
    let s = multiples(p, a);
    let t = residues(p);
    lemma_multiples_permute(p, a);
    lemma_product_permutation(s, t);
    lemma_multiples_product(p, a, n);
    lemma_residues_product_nonzero(p, n);
    assert(s.take(n as int) == s);
    assert(t.take(n as int) == t);
    assert(1 * product(t) == product(t));
    lemma_prime_cancel(p, pow(a, n), 1, product(t));
    lemma_small_mod(1, p);
}

} // verus!
