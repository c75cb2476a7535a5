//! Lagrange interpolation at zero, modulo a prime.
//!
//! The weights that reconstruction gives to the shares are the values at
//! zero of the Lagrange basis polynomials of their keys. This file proves
//! that the weighted sum of the values of a polynomial at more nodes than
//! its degree is the polynomial's constant term.

use crate::arith::{lemma_pow_nonnegative, lemma_pow_step};
use crate::modular::{is_prime, lemma_fermat, lemma_prime_cancel};
use crate::polynomial::power_sum;
use vstd::arithmetic::div_mod::{
    lemma_add_mod_noop, lemma_mod_twice, lemma_mul_mod_noop_left, lemma_mul_mod_noop_right,
    lemma_small_mod, lemma_sub_mod_noop,
};
use vstd::arithmetic::power::{lemma_pow0, pow};
use vstd::prelude::*;

verus! {

/// The inverse of `a` modulo the prime `p`: `a` to the power `p - 2`.
pub open spec fn inverse(a: int, p: nat) -> int {
    pow(a % (p as int), (p - 2) as nat) % (p as int)
}

/// The factor `xi / (xi - x)` of the basis polynomial of `x` at zero.
pub open spec fn basis_factor(xi: int, x: int, p: nat) -> int {
    xi * inverse(xi - x, p)
}

/// The product of the factors of all nodes other than `x`.
pub open spec fn basis(nodes: Seq<int>, x: int, p: nat) -> int
    decreases nodes.len(),
{
    if nodes.len() == 0 {
        1
    } else if nodes.last() == x {
        basis(nodes.drop_last(), x, p)
    } else {
        basis(nodes.drop_last(), x, p) * basis_factor(nodes.last(), x, p)
    }
}

/// The sum of `term` over the nodes of `part`.
pub open spec fn sum_over(part: Seq<int>, term: spec_fn(int) -> int) -> int
    decreases part.len(),
{
    if part.len() == 0 {
        0
    } else {
        sum_over(part.drop_last(), term) + term(part.last())
    }
}

/// The term of a node in an interpolation: the value of `f` there, times
/// the node's basis product.
pub open spec fn basis_term(nodes: Seq<int>, f: spec_fn(int) -> int, p: nat) -> spec_fn(
    int,
) -> int {
    |x: int| f(x) * basis(nodes, x, p)
}

/// The value at zero of the interpolation of `f` at `nodes`, not yet
/// reduced.
pub open spec fn interpolate(nodes: Seq<int>, f: spec_fn(int) -> int, p: nat) -> int {
    sum_over(nodes, basis_term(nodes, f, p))
}

/// Whether no two nodes are congruent modulo `p`.
pub open spec fn distinct_residues(nodes: Seq<int>, p: nat) -> bool {
    forall|i: int, j: int|
        0 <= i < nodes.len() && 0 <= j < nodes.len() && i != j ==> (#[trigger] nodes[i]
            - #[trigger] nodes[j]) % (p as int) != 0
}

/// Sums of termwise congruent terms are congruent.
pub proof fn lemma_sum_congruent(
    part: Seq<int>,
    t1: spec_fn(int) -> int,
    t2: spec_fn(int) -> int,
    p: nat,
)
    requires
        p > 0,
        forall|i: int|
            0 <= i < part.len() ==> t1(#[trigger] part[i]) % (p as int) == t2(part[i]) % (
            p as int),
    ensures
        sum_over(part, t1) % (p as int) == sum_over(part, t2) % (p as int),
    decreases part.len(),
{
    if part.len() > 0 {
        let rest = part.drop_last();
        assert forall|i: int| 0 <= i < rest.len() implies t1(#[trigger] rest[i]) % (p as int)
            == t2(rest[i]) % (p as int) by {
            assert(rest[i] == part[i]);
        }
        lemma_sum_congruent(rest, t1, t2, p);
        assert(part.last() == part[part.len() - 1]);
        lemma_add_mod_noop(sum_over(rest, t1), t1(part.last()), p as int);
        lemma_add_mod_noop(sum_over(rest, t2), t2(part.last()), p as int);
    }
}

/// A sum is the sum without one node, plus the term of that node.
pub proof fn lemma_sum_remove(part: Seq<int>, term: spec_fn(int) -> int, r: int)
    requires
        0 <= r < part.len(),
    ensures
        sum_over(part, term) == sum_over(part.remove(r), term) + term(part[r]),
    decreases part.len(),
{
    if r == part.len() - 1 {
        assert(part.remove(r) == part.drop_last());
    } else {
        lemma_sum_remove(part.drop_last(), term, r);
        assert(part.drop_last().remove(r) == part.remove(r).drop_last());
        assert(part.remove(r).last() == part.last());
    }
}

/// Sums are linear in their terms.
pub proof fn lemma_sum_linear(
    part: Seq<int>,
    t: spec_fn(int) -> int,
    a: int,
    t1: spec_fn(int) -> int,
    b: int,
    t2: spec_fn(int) -> int,
)
    requires
        forall|i: int|
            0 <= i < part.len() ==> t(#[trigger] part[i]) == a * t1(part[i]) + b * t2(part[i]),
    ensures
        sum_over(part, t) == a * sum_over(part, t1) + b * sum_over(part, t2),
    decreases part.len(),
{
    if part.len() > 0 {
        let rest = part.drop_last();
        assert forall|i: int| 0 <= i < rest.len() implies t(#[trigger] rest[i]) == a * t1(rest[i])
            + b * t2(rest[i]) by {
            assert(rest[i] == part[i]);
        }
        lemma_sum_linear(rest, t, a, t1, b, t2);
        let x = part.last();
        assert(x == part[part.len() - 1]);
        assert(a * (sum_over(rest, t1) + t1(x)) + b * (sum_over(rest, t2) + t2(x)) == (a
            * sum_over(rest, t1) + b * sum_over(rest, t2)) + (a * t1(x) + b * t2(x)))
            by (nonlinear_arith);
    } else {
        assert(a * 0 + b * 0 == 0);
    }
}

/// Removing a node other than `x` removes that node's factor from the
/// basis product of `x`.
pub proof fn lemma_basis_remove_other(nodes: Seq<int>, x: int, p: nat, r: int)
    requires
        0 <= r < nodes.len(),
        nodes[r] != x,
    ensures
        basis(nodes, x, p) == basis(nodes.remove(r), x, p) * basis_factor(nodes[r], x, p),
    decreases nodes.len(),
{
    if r == nodes.len() - 1 {
        assert(nodes.remove(r) == nodes.drop_last());
    } else {
        let rest = nodes.drop_last();
        lemma_basis_remove_other(rest, x, p, r);
        assert(rest.remove(r) == nodes.remove(r).drop_last());
        assert(nodes.remove(r).last() == nodes.last());
        if nodes.last() != x {
            let b = basis(rest.remove(r), x, p);
            let fr = basis_factor(nodes[r], x, p);
            let fl = basis_factor(nodes.last(), x, p);
            assert((b * fr) * fl == (b * fl) * fr) by (nonlinear_arith);
        }
    }
}

/// Interpolation is linear in the interpolated function.
pub proof fn lemma_interpolate_linear(
    nodes: Seq<int>,
    h: spec_fn(int) -> int,
    a: int,
    f1: spec_fn(int) -> int,
    b: int,
    f2: spec_fn(int) -> int,
    p: nat,
)
    requires
        forall|i: int|
            0 <= i < nodes.len() ==> h(#[trigger] nodes[i]) == a * f1(nodes[i]) + b * f2(nodes[i]),
    ensures
        interpolate(nodes, h, p) == a * interpolate(nodes, f1, p) + b * interpolate(nodes, f2, p),
{
    let th = basis_term(nodes, h, p);
    let t1 = basis_term(nodes, f1, p);
    let t2 = basis_term(nodes, f2, p);
    assert forall|i: int| 0 <= i < nodes.len() implies th(#[trigger] nodes[i]) == a * t1(nodes[i])
        + b * t2(nodes[i]) by {
        let x = nodes[i];
        let w = basis(nodes, x, p);
        assert((a * f1(x) + b * f2(x)) * w == a * (f1(x) * w) + b * (f2(x) * w))
            by (nonlinear_arith);
    }
    lemma_sum_linear(nodes, th, a, t1, b, t2);
}

/// The power `p - 2` inverts every number that the prime `p` does not
/// divide.
pub proof fn lemma_inverse(p: nat, a: int)
    requires
        is_prime(p),
        a % (p as int) != 0,
    ensures
        (a * inverse(a, p)) % (p as int) == 1,
{
    let m = p as int;
    let b = a % m;
    let e = (p - 2) as nat;
    lemma_mod_twice(a, m);
    lemma_fermat(p, b);
    lemma_pow_step(b, e);
    lemma_mul_mod_noop_right(a, pow(b, e), m);
    lemma_mul_mod_noop_left(a, pow(b, e), m);
    assert(b * pow(b, e) == pow(b, e) * b) by (nonlinear_arith);
}

/// Divided by its negative, a number that the prime does not divide gives
/// minus one.
pub proof fn lemma_inverse_of_negative(p: nat, d: int)
    requires
        is_prime(p),
        d % (p as int) != 0,
    ensures
        ((-d) * inverse(d, p)) % (p as int) == (-1int) % (p as int),
{
    let m = p as int;
    lemma_inverse(p, d);
    lemma_mul_mod_noop_right(-1, d * inverse(d, p), m);
    assert((-1) * (d * inverse(d, p)) == (-d) * inverse(d, p)) by (nonlinear_arith);
}

/// Nodes stay distinct when one of them is removed.
pub proof fn lemma_distinct_remove(nodes: Seq<int>, p: nat, r: int)
    requires
        distinct_residues(nodes, p),
        0 <= r < nodes.len(),
    ensures
        distinct_residues(nodes.remove(r), p),
{
    let rest = nodes.remove(r);
    assert forall|i: int, j: int| 0 <= i < rest.len() && 0 <= j < rest.len() && i != j implies (
    #[trigger] rest[i] - #[trigger] rest[j]) % (p as int) != 0 by {
        let i2 = if i < r {
            i
        } else {
            i + 1
        };
        let j2 = if j < r {
            j
        } else {
            j + 1
        };
        assert(rest[i] == nodes[i2]);
        assert(rest[j] == nodes[j2]);
    }
}

/// A function with the factor `x - w`, for a node `w`, is interpolated by
/// `-w` times the interpolation of the other factor at the other nodes.
pub proof fn lemma_interpolate_factor(
    nodes: Seq<int>,
    f: spec_fn(int) -> int,
    g: spec_fn(int) -> int,
    p: nat,
    r: int,
)
    requires
        is_prime(p),
        distinct_residues(nodes, p),
        0 <= r < nodes.len(),
        forall|i: int|
            0 <= i < nodes.len() ==> f(#[trigger] nodes[i]) == (nodes[i] - nodes[r]) * g(nodes[i]),
    ensures
        interpolate(nodes, f, p) % (p as int) == ((-nodes[r]) * interpolate(
            nodes.remove(r),
            g,
            p,
        )) % (p as int),
{
    let m = p as int;
    let w = nodes[r];
    let rest = nodes.remove(r);
    let tf = basis_term(nodes, f, p);
    let tg = basis_term(rest, g, p);
    let scaled = |x: int| (-w) * tg(x);
    lemma_sum_remove(nodes, tf, r);
    assert(tf(w) == 0) by {
        assert(f(nodes[r]) == (w - w) * g(w));
        assert((w - w) * g(w) == 0) by (nonlinear_arith);
        assert(0 * basis(nodes, w, p) == 0);
    }
    assert forall|i: int| 0 <= i < rest.len() implies tf(#[trigger] rest[i]) % m == scaled(
        rest[i],
    ) % m by {
        let i2 = if i < r {
            i
        } else {
            i + 1
        };
        let x = rest[i];
        assert(x == nodes[i2]);
        assert((nodes[r] - nodes[i2]) % m != 0);
        assert(x != w);
        lemma_basis_remove_other(nodes, x, p, r);
        lemma_inverse_of_negative(p, w - x);
        let inv = inverse(w - x, p);
        let b = basis(rest, x, p);
        let lead = (x - w) * inv;
        let tail = w * (g(x) * b);
        assert(f(x) == (x - w) * g(x));
        assert(tf(x) == lead * tail) by (nonlinear_arith)
            requires
                tf(x) == ((x - w) * g(x)) * (b * (w * inv)),
                lead == (x - w) * inv,
                tail == w * (g(x) * b),
        ;
        assert(-(w - x) == x - w);
        lemma_mul_mod_noop_left(lead, tail, m);
        lemma_mul_mod_noop_left(-1, tail, m);
        assert((-1) * tail == scaled(x)) by (nonlinear_arith)
            requires
                tail == w * (g(x) * b),
                scaled(x) == (-w) * (g(x) * b),
        ;
    }
    lemma_sum_congruent(rest, tf, scaled, p);
    lemma_sum_linear(rest, scaled, -w, tg, 0, tg);
}

/// The function that is one everywhere.
pub open spec fn one() -> spec_fn(int) -> int {
    |x: int| 1int
}

/// The weights of one or more distinct nodes sum to one.
pub proof fn lemma_interpolate_one(nodes: Seq<int>, p: nat)
    requires
        is_prime(p),
        distinct_residues(nodes, p),
        nodes.len() >= 1,
    ensures
        interpolate(nodes, one(), p) % (p as int) == 1,
    decreases nodes.len(),
{
    let m = p as int;
    let k = nodes.len() as int;
    lemma_small_mod(1, p);
    if k == 1 {
        let t = basis_term(nodes, one(), p);
        assert(nodes.drop_last().len() == 0);
        assert(sum_over(nodes.drop_last(), t) == 0);
        assert(basis(nodes.drop_last(), nodes.last(), p) == 1);
        assert(basis(nodes, nodes.last(), p) == 1);
        assert(interpolate(nodes, one(), p) == 0 + t(nodes.last()));
    } else {
        let w = nodes[k - 1];
        let v = nodes[k - 2];
        let fw = |x: int| (x - w) * 1;
        let fv = |x: int| (x - v) * 1;
        let total = interpolate(nodes, one(), p);
        let without_w = interpolate(nodes.remove(k - 1), one(), p);
        let without_v = interpolate(nodes.remove(k - 2), one(), p);
        lemma_interpolate_factor(nodes, fw, one(), p, k - 1);
        lemma_interpolate_factor(nodes, fv, one(), p, k - 2);
        lemma_distinct_remove(nodes, p, k - 1);
        lemma_distinct_remove(nodes, p, k - 2);
        lemma_interpolate_one(nodes.remove(k - 1), p);
        lemma_interpolate_one(nodes.remove(k - 2), p);
        lemma_interpolate_linear(nodes, fw, v - w, one(), 1, fv, p);
        lemma_mul_mod_noop_right(-w, without_w, m);
        lemma_mul_mod_noop_right(-v, without_v, m);
        let iw = interpolate(nodes, fw, p);
        let iv = interpolate(nodes, fv, p);
        assert(iw % m == (-w) % m);
        assert(iv % m == (-v) % m);
        lemma_sub_mod_noop(iw, iv, m);
        lemma_sub_mod_noop(-w, -v, m);
        assert((v - w) * total == iw - iv);
        assert(((v - w) * total) % m == (v - w) % m);
        assert((v - w) * total == total * (v - w)) by (nonlinear_arith);
        assert(1 * (v - w) == v - w);
        assert((nodes[k - 2] - nodes[k - 1]) % m != 0);
        lemma_prime_cancel(p, total, 1, v - w);
    }
}

/// The function `x^m`.
pub open spec fn monomial(m: nat) -> spec_fn(int) -> int {
    |x: int| pow(x, m)
}

/// Interpolated at more than `m` distinct nodes, `x^m` gives its value at
/// zero: one for `m = 0`, zero otherwise.
pub proof fn lemma_interpolate_monomial(nodes: Seq<int>, m: nat, p: nat)
    requires
        is_prime(p),
        distinct_residues(nodes, p),
        m < nodes.len(),
    ensures
        interpolate(nodes, monomial(m), p) % (p as int) == if m == 0 {
            1int
        } else {
            0int
        },
    decreases nodes.len(), m,
{
    let q = p as int;
    if m == 0 {
        lemma_interpolate_one(nodes, p);
        assert forall|i: int| 0 <= i < nodes.len() implies monomial(0)(#[trigger] nodes[i]) == 1
            * one()(nodes[i]) + 0 * one()(nodes[i]) by {
            lemma_pow0(nodes[i]);
        }
        lemma_interpolate_linear(nodes, monomial(0), 1, one(), 0, one(), p);
    } else {
        let r = nodes.len() - 1;
        let w = nodes[r];
        let rest = nodes.remove(r);
        let lower = (m - 1) as nat;
        let g = monomial(lower);
        let h = |x: int| (x - w) * g(x);
        assert forall|i: int| 0 <= i < nodes.len() implies monomial(m)(#[trigger] nodes[i]) == w
            * g(nodes[i]) + 1 * h(nodes[i]) by {
            let x = nodes[i];
            lemma_pow_step(x, lower);
            assert(pow(x, lower) * x == w * pow(x, lower) + 1 * ((x - w) * pow(x, lower)))
                by (nonlinear_arith);
        }
        lemma_interpolate_linear(nodes, monomial(m), w, g, 1, h, p);
        lemma_interpolate_factor(nodes, h, g, p, r);
        lemma_distinct_remove(nodes, p, r);
        lemma_interpolate_monomial(nodes, lower, p);
        lemma_interpolate_monomial(rest, lower, p);
        let ig = interpolate(nodes, g, p);
        let ih = interpolate(nodes, h, p);
        let ir = interpolate(rest, g, p);
        lemma_mul_mod_noop_right(w, ig, q);
        lemma_mul_mod_noop_right(-w, ir, q);
        lemma_add_mod_noop(w * ig, ih, q);
        assert(ig % q == ir % q);
        let e = ig % q;
        assert(w * e + (-w) * e == 0) by (nonlinear_arith);
        lemma_add_mod_noop(w * e, (-w) * e, q);
        lemma_small_mod(0, p);
    }
}

/// The polynomial with the given constant term and higher coefficients, on
/// the natural numbers.
pub open spec fn polynomial(constant: nat, coefficients: Seq<nat>) -> spec_fn(int) -> int {
    |x: int| (constant + power_sum(coefficients, x as nat)) as int
}

/// Interpolated at more distinct nodes than it has higher coefficients, a
/// polynomial gives its constant term.
pub proof fn lemma_interpolate_polynomial(
    nodes: Seq<int>,
    constant: nat,
    coefficients: Seq<nat>,
    p: nat,
)
    requires
        is_prime(p),
        distinct_residues(nodes, p),
        coefficients.len() < nodes.len(),
        forall|i: int| 0 <= i < nodes.len() ==> #[trigger] nodes[i] >= 0,
    ensures
        interpolate(nodes, polynomial(constant, coefficients), p) % (p as int) == constant % p,
    decreases coefficients.len(),
{
    let q = p as int;
    let f = polynomial(constant, coefficients);
    if coefficients.len() == 0 {
        assert forall|i: int| 0 <= i < nodes.len() implies f(#[trigger] nodes[i]) == constant
            * one()(nodes[i]) + 0 * one()(nodes[i]) by {}
        lemma_interpolate_linear(nodes, f, constant as int, one(), 0, one(), p);
        lemma_interpolate_one(nodes, p);
        lemma_mul_mod_noop_right(constant as int, interpolate(nodes, one(), p), q);
    } else {
        let rest = coefficients.drop_last();
        let c = coefficients.last();
        let m = coefficients.len();
        let g = polynomial(constant, rest);
        assert forall|i: int| 0 <= i < nodes.len() implies f(#[trigger] nodes[i]) == 1 * g(
            nodes[i],
        ) + c * monomial(m)(nodes[i]) by {
            lemma_pow_nonnegative(nodes[i] as nat, m);
        }
        lemma_interpolate_linear(nodes, f, 1, g, c as int, monomial(m), p);
        lemma_interpolate_polynomial(nodes, constant, rest, p);
        lemma_interpolate_monomial(nodes, m, p);
        let ig = interpolate(nodes, g, p);
        let im = interpolate(nodes, monomial(m), p);
        lemma_mul_mod_noop_right(c as int, im, q);
        assert(c * 0 == 0);
        lemma_add_mod_noop(1 * ig, c * im, q);
        lemma_small_mod(0, p);
        lemma_mod_twice(constant as int, q);
    }
}

} // verus!
