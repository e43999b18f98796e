//! The algebra of the negacyclic product in `Z[X] / (X^n + 1)` on coefficient sequences of at
//! most `n` coefficients: it is commutative, associative, bilinear, has a unit, and respects
//! congruence modulo `q`. These laws carry over to the ring `Z_q[X] / (X^n + 1)`, and so to every
//! multiplication of [`crate::primitives::poly::Poly`].
use vstd::arithmetic::div_mod::*;
use vstd::arithmetic::mul::*;
use vstd::prelude::*;

use crate::primitives::poly::algebra::{
    get, lemma_negacyclic_sum, negacyclic, negacyclic_term, ring_mul,
};
use crate::primitives::sum::{
    lemma_sum_add, lemma_sum_bounds, lemma_sum_cong_mod, lemma_sum_ext, lemma_sum_reverse, lemma_sum_rotate,
    lemma_sum_scale, lemma_sum_single, lemma_sum_split, lemma_sum_swap, sum,
};

verus! {

/// The index `k - i` modulo `n`, for `k` and `i` in `[0, n)`.
pub open spec fn wrap(k: int, i: int, n: nat) -> int {
    if i <= k {
        k - i
    } else {
        k + n - i
    }
}

/// `1` when `X^i X^(k - i mod n)` does not wrap past `X^n = -1`, `-1` when it does.
pub open spec fn sgn(k: int, i: int) -> int {
    if i <= k {
        1
    } else {
        -1
    }
}

/// The coefficient of `X^k` in `a * b` in `Z[X] / (X^n + 1)`, for factors of at most `n`
/// coefficients.
pub open spec fn nega(a: Seq<int>, b: Seq<int>, n: nat, k: int) -> int {
    sum(nega_terms(a, b, n, k), n)
}

/// The terms of [`nega`], by the index of the left factor.
pub open spec fn nega_terms(a: Seq<int>, b: Seq<int>, n: nat, k: int) -> spec_fn(int) -> int {
    |i: int| negacyclic_term(a, b, n, k, i)
}

/// The `n` coefficients of `a * b` in `Z[X] / (X^n + 1)`.
pub open spec fn nega_seq(a: Seq<int>, b: Seq<int>, n: nat) -> Seq<int> {
    Seq::new(n, |k: int| nega(a, b, n, k))
}

/// A sequence of at most `n` coefficients.
pub open spec fn short(a: Seq<int>, n: nat) -> bool {
    a.len() <= n
}

/// Each term of the negacyclic sum, as a sign times a product.
pub proof fn lemma_term_sign(a: Seq<int>, b: Seq<int>, n: nat, k: int, i: int)
    requires
        0 <= k < n,
        0 <= i < n,
    ensures
        negacyclic_term(a, b, n, k, i) == sgn(k, i) * (get(a, i) * get(b, wrap(k, i, n))),
{
}

/// The ring product of short factors, read through the negacyclic sum.
pub proof fn lemma_ring_mul_nega(a: Seq<int>, b: Seq<int>, n: nat, q: int, k: int)
    requires
        short(a, n),
        short(b, n),
        0 <= k < n,
    ensures
        ring_mul(a, b, n, q)[k] == nega(a, b, n, k) % q,
{
    lemma_negacyclic_sum(a, b, n, k);
}

/// Summing over the indexes `k - i mod n` gives the same sum: the map is a reflection of
/// `[0, k]` and of `[k + 1, n)`.
proof fn lemma_sum_reflect(g: spec_fn(int) -> int, n: nat, k: int)
    requires
        0 <= k < n,
    ensures
        sum(|i: int| g(wrap(k, i, n)), n) == sum(g, n),
{
    let h = |i: int| g(wrap(k, i, n));
    let a = (k + 1) as nat;
    let m = (n - k - 1) as nat;
    assert(a + m == n);
    lemma_sum_split(h, a, m);
    lemma_sum_split(g, a, m);
    // the first block, reversed
    lemma_sum_ext(h, |i: int| g(a - 1 - i), a);
    lemma_sum_reverse(g, a);
    // the second block, reversed
    let u = |j: int| g(a + j);
    lemma_sum_ext(|i: int| h(a + i), |i: int| u(m - 1 - i), m);
    lemma_sum_reverse(u, m);
    lemma_sum_ext(u, |i: int| g(a + i), m);
}

/// The negacyclic product is commutative.
pub proof fn lemma_nega_comm(a: Seq<int>, b: Seq<int>, n: nat, k: int)
    requires
        0 <= k < n,
    ensures
        nega(a, b, n, k) == nega(b, a, n, k),
{
    let f = nega_terms(a, b, n, k);
    let g = nega_terms(b, a, n, k);
    assert forall|i: int| 0 <= i < n implies #[trigger] f(i) == g(wrap(k, i, n)) by {
        lemma_mul_is_commutative(get(a, i), get(b, wrap(k, i, n)));
    }
    lemma_sum_ext(f, |i: int| g(wrap(k, i, n)), n);
    lemma_sum_reflect(g, n, k);
}

/// The negacyclic product is linear in its left factor: sums.
pub proof fn lemma_nega_add_left(a: Seq<int>, a1: Seq<int>, a2: Seq<int>, b: Seq<int>, n: nat, k: int)
    requires
        forall|i: int| #[trigger] get(a, i) == get(a1, i) + get(a2, i),
    ensures
        nega(a, b, n, k) == nega(a1, b, n, k) + nega(a2, b, n, k),
{
    let f = nega_terms(a, b, n, k);
    let f1 = nega_terms(a1, b, n, k);
    let f2 = nega_terms(a2, b, n, k);
    assert forall|i: int| 0 <= i < n implies #[trigger] f(i) == f1(i) + f2(i) by {
        assert(get(a, i) == get(a1, i) + get(a2, i));
        if i <= k {
            lemma_mul_is_distributive_add_other_way(get(b, k - i), get(a1, i), get(a2, i));
        } else {
            lemma_mul_is_distributive_add_other_way(get(b, k + n - i), get(a1, i), get(a2, i));
        }
    }
    lemma_sum_add(f1, f2, f, n);
}

/// The negacyclic product is linear in its left factor: constant multiples.
pub proof fn lemma_nega_scale_left(a: Seq<int>, a1: Seq<int>, c: int, b: Seq<int>, n: nat, k: int)
    requires
        forall|i: int| #[trigger] get(a, i) == c * get(a1, i),
    ensures
        nega(a, b, n, k) == c * nega(a1, b, n, k),
{
    let f = nega_terms(a, b, n, k);
    let f1 = nega_terms(a1, b, n, k);
    assert forall|i: int| 0 <= i < n implies #[trigger] f(i) == c * f1(i) by {
        let x = get(a1, i);
        let y = if i <= k { get(b, k - i) } else { get(b, k + n - i) };
        assert(get(a, i) == c * x);
        assert((c * x) * y == c * (x * y) && -((c * x) * y) == c * (-(x * y))) by (nonlinear_arith);
    }
    lemma_sum_ext(f, |i: int| c * f1(i), n);
    lemma_sum_scale(f1, c, n);
}

/// Factors that agree modulo `q` give products that agree modulo `q`.
pub proof fn lemma_nega_cong(a: Seq<int>, a2: Seq<int>, b: Seq<int>, b2: Seq<int>, n: nat, q: int, k: int)
    requires
        q > 0,
        forall|i: int| #[trigger] get(a, i) % q == get(a2, i) % q,
        forall|i: int| #[trigger] get(b, i) % q == get(b2, i) % q,
    ensures
        nega(a, b, n, k) % q == nega(a2, b2, n, k) % q,
{
    let f = nega_terms(a, b, n, k);
    let f2 = nega_terms(a2, b2, n, k);
    assert forall|i: int| 0 <= i < n implies #[trigger] f(i) % q == f2(i) % q by {
        let j = if i <= k { k - i } else { k + n - i };
        assert(get(a, i) % q == get(a2, i) % q);
        assert(get(b, j) % q == get(b2, j) % q);
        lemma_mul_mod_noop(get(a, i), get(b, j), q);
        lemma_mul_mod_noop(get(a2, i), get(b2, j), q);
        if i > k {
            lemma_sub_mod_noop(0, get(a, i) * get(b, j), q);
            lemma_sub_mod_noop(0, get(a2, i) * get(b2, j), q);
        }
    }
    lemma_sum_cong_mod(f, f2, n, q);
}

/// The constant `1` is the unit of the negacyclic product.
pub proof fn lemma_nega_unit(a: Seq<int>, n: nat, k: int)
    requires
        0 <= k < n,
    ensures
        nega(a, seq![1int], n, k) == get(a, k),
{
    let f = nega_terms(a, seq![1int], n, k);
    assert forall|i: int| 0 <= i < n && i != k implies #[trigger] f(i) == 0 by {
    }
    lemma_sum_single(f, n, k);
}

/// Equal factors give equal products.
proof fn lemma_mul_eq(a: int, b: int, c: int)
    requires
        a == b,
    ensures
        a * c == b * c,
{
}

/// The signs of the two ways of grouping a triple product agree.
proof fn lemma_assoc_term(k: int, i: int, j: int, n: nat)
    requires
        0 <= k < n,
        0 <= i < n,
        0 <= j < n,
    ensures
        wrap(wrap(k, i, n), wrap(j, i, n), n) == wrap(k, j, n),
        sgn(k, i) * sgn(wrap(k, i, n), wrap(j, i, n)) == sgn(k, j) * sgn(j, i),
{
}

/// The negacyclic product is associative.
pub proof fn lemma_nega_assoc(a: Seq<int>, b: Seq<int>, c: Seq<int>, n: nat, k: int)
    requires
        0 <= k < n,
    ensures
        nega(nega_seq(a, b, n), c, n, k) == nega(a, nega_seq(b, c, n), n, k),
{
    let p = nega_seq(a, b, n);
    let r = nega_seq(b, c, n);
    // (a b) c, as a double sum over the index j of a b and the index i of a
    let big_a = |j: int, i: int| (sgn(k, j) * get(c, wrap(k, j, n))) * negacyclic_term(a, b, n, j, i);
    let lhs_terms = nega_terms(p, c, n, k);
    assert forall|j: int| 0 <= j < n implies #[trigger] lhs_terms(j) == sum(|i: int| big_a(j, i), n) by {
        lemma_term_sign(p, c, n, k, j);
        let w = sgn(k, j) * get(c, wrap(k, j, n));
        assert(get(p, j) == nega(a, b, n, j));
        let t = nega_terms(a, b, n, j);
        lemma_sum_scale(t, w, n);
        assert forall|i: int| 0 <= i < n implies #[trigger] big_a(j, i) == w * t(i) by {
            assert(big_a(j, i) == w * negacyclic_term(a, b, n, j, i));
        }
        lemma_sum_ext(|i: int| w * t(i), |i: int| big_a(j, i), n);
        assert(nega(a, b, n, j) == sum(t, n));
        assert(sgn(k, j) * (get(p, j) * get(c, wrap(k, j, n))) == w * get(p, j)) by (nonlinear_arith)
            requires
                w == sgn(k, j) * get(c, wrap(k, j, n));
    }
    lemma_sum_ext(lhs_terms, |j: int| sum(|i: int| big_a(j, i), n), n);
    lemma_sum_swap(big_a, n, n);
    // a (b c), as a double sum over the index i of a and the index l of b
    let big_b = |i: int, l: int| (sgn(k, i) * get(a, i)) * negacyclic_term(b, c, n, wrap(k, i, n), l);
    let rhs_terms = nega_terms(a, r, n, k);
    assert forall|i: int| 0 <= i < n implies #[trigger] rhs_terms(i) == sum(|l: int| big_b(i, l), n) by {
        lemma_term_sign(a, r, n, k, i);
        let v = sgn(k, i) * get(a, i);
        let pi = wrap(k, i, n);
        assert(get(r, pi) == nega(b, c, n, pi));
        let t = nega_terms(b, c, n, pi);
        lemma_sum_scale(t, v, n);
        assert forall|l: int| 0 <= l < n implies #[trigger] big_b(i, l) == v * t(l) by {
            assert(big_b(i, l) == v * negacyclic_term(b, c, n, pi, l));
        }
        lemma_sum_ext(|l: int| v * t(l), |l: int| big_b(i, l), n);
        assert(nega(b, c, n, pi) == sum(t, n));
        assert(sgn(k, i) * (get(a, i) * get(r, pi)) == v * get(r, pi)) by (nonlinear_arith)
            requires
                v == sgn(k, i) * get(a, i);
    }
    lemma_sum_ext(rhs_terms, |i: int| sum(|l: int| big_b(i, l), n), n);
    // for each i, the inner sums agree once j is rotated to l = j - i mod n
    let col_a = |i: int| sum(|j: int| big_a(j, i), n);
    let row_b = |i: int| sum(|l: int| big_b(i, l), n);
    assert forall|i: int| 0 <= i < n implies #[trigger] col_a(i) == row_b(i) by {
        let g = |l: int| big_b(i, l);
        let t = n - i;
        assert forall|j: int| 0 <= j < n implies #[trigger] big_a(j, i) == g((j + t) % (n as int)) by {
            let l = wrap(j, i, n);
            assert((j + t) % (n as int) == l) by {
                if i <= j {
                    lemma_fundamental_div_mod_converse(j + t, n as int, 1, l);
                } else {
                    lemma_fundamental_div_mod_converse(j + t, n as int, 0, l);
                }
            }
            lemma_assoc_term(k, i, j, n);
            let pi = wrap(k, i, n);
            lemma_term_sign(a, b, n, j, i);
            lemma_term_sign(b, c, n, pi, l);
            let x = get(a, i);
            let y = get(b, l);
            let z = get(c, wrap(k, j, n));
            let s1 = sgn(k, j);
            let s2 = sgn(j, i);
            let s3 = sgn(k, i);
            let s4 = sgn(pi, l);
            assert((s1 * z) * (s2 * (x * y)) == (s1 * s2) * (x * (y * z))) by (nonlinear_arith);
            assert((s3 * x) * (s4 * (y * z)) == (s3 * s4) * (x * (y * z))) by (nonlinear_arith);
            lemma_mul_eq(s1 * s2, s3 * s4, x * (y * z));
        }
        lemma_sum_ext(|j: int| big_a(j, i), |j: int| g((j + t) % (n as int)), n);
        lemma_sum_rotate(g, n, t);
    }
    lemma_sum_ext(col_a, row_b, n);
    assert(nega(p, c, n, k) == sum(|j: int| sum(|i: int| big_a(j, i), n), n));
    assert(sum(|j: int| sum(|i: int| big_a(j, i), n), n) == sum(col_a, n));
    assert(nega(a, r, n, k) == sum(row_b, n));
}

/// Multiplication in `Z_q[X] / (X^n + 1)` is commutative.
pub proof fn lemma_ring_mul_comm(a: Seq<int>, b: Seq<int>, n: nat, q: int)
    requires
        short(a, n),
        short(b, n),
    ensures
        ring_mul(a, b, n, q) == ring_mul(b, a, n, q),
{
    assert forall|k: int| 0 <= k < n implies #[trigger] ring_mul(a, b, n, q)[k] == ring_mul(b, a, n, q)[k] by {
        lemma_ring_mul_nega(a, b, n, q, k);
        lemma_ring_mul_nega(b, a, n, q, k);
        lemma_nega_comm(a, b, n, k);
    }
    assert(ring_mul(a, b, n, q) =~= ring_mul(b, a, n, q));
}

/// A ring product agrees modulo `q`, index by index, with the negacyclic product over the
/// integers.
proof fn lemma_ring_mul_cong_nega(a: Seq<int>, b: Seq<int>, n: nat, q: int)
    requires
        short(a, n),
        short(b, n),
        q > 0,
    ensures
        forall|j: int| #[trigger] get(ring_mul(a, b, n, q), j) % q == get(nega_seq(a, b, n), j) % q,
{
    assert forall|j: int| #[trigger] get(ring_mul(a, b, n, q), j) % q == get(nega_seq(a, b, n), j) % q by {
        if 0 <= j < n {
            lemma_ring_mul_nega(a, b, n, q, j);
            lemma_mod_twice(nega(a, b, n, j), q);
        }
    }
}

/// Multiplication in `Z_q[X] / (X^n + 1)` is associative.
pub proof fn lemma_ring_mul_assoc(a: Seq<int>, b: Seq<int>, c: Seq<int>, n: nat, q: int)
    requires
        short(a, n),
        short(b, n),
        short(c, n),
        q > 0,
    ensures
        ring_mul(ring_mul(a, b, n, q), c, n, q) == ring_mul(a, ring_mul(b, c, n, q), n, q),
{
    let ab = ring_mul(a, b, n, q);
    let bc = ring_mul(b, c, n, q);
    lemma_ring_mul_cong_nega(a, b, n, q);
    lemma_ring_mul_cong_nega(b, c, n, q);
    assert forall|k: int| 0 <= k < n implies #[trigger] ring_mul(ab, c, n, q)[k] == ring_mul(a, bc, n, q)[k] by {
        lemma_ring_mul_nega(ab, c, n, q, k);
        lemma_ring_mul_nega(a, bc, n, q, k);
        lemma_nega_cong(ab, nega_seq(a, b, n), c, c, n, q, k);
        lemma_nega_assoc(a, b, c, n, k);
        lemma_nega_cong(a, a, bc, nega_seq(b, c, n), n, q, k);
    }
    assert(ring_mul(ab, c, n, q) =~= ring_mul(a, bc, n, q));
}

/// Each coefficient of a product of factors bounded by `x` and `y` is bounded by `n x y`.
pub proof fn lemma_nega_bound(a: Seq<int>, b: Seq<int>, n: nat, k: int, x: int, y: int)
    requires
        0 <= k < n,
        forall|i: int| -x <= #[trigger] get(a, i) <= x,
        forall|i: int| -y <= #[trigger] get(b, i) <= y,
    ensures
        -(n * (x * y)) <= nega(a, b, n, k) <= n * (x * y),
{
    let f = nega_terms(a, b, n, k);
    assert forall|i: int| 0 <= i < n implies -(x * y) <= #[trigger] f(i) <= x * y by {
        let u = get(a, i);
        let v = get(b, wrap(k, i, n));
        lemma_term_sign(a, b, n, k, i);
        assert(-(x * y) <= u * v <= x * y) by (nonlinear_arith)
            requires
                -x <= u <= x,
                -y <= v <= y;
    }
    lemma_sum_bounds(f, n, -(x * y), x * y);
    assert(n * (-(x * y)) == -(n * (x * y))) by (nonlinear_arith);
}

} // verus!
