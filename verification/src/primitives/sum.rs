//! Finite sums of integer terms, and the ways of regrouping them that counting arguments need.
use vstd::arithmetic::div_mod::*;
use vstd::arithmetic::mul::*;
use vstd::prelude::*;

verus! {

/// `f(0) + f(1) + ... + f(n - 1)`.
pub open spec fn sum(f: spec_fn(int) -> int, n: nat) -> int
    decreases n,
{
    if n == 0 {
        0
    } else {
        sum(f, (n - 1) as nat) + f(n - 1)
    }
}

/// Sums of terms that agree below `n` are equal.
pub proof fn lemma_sum_ext(f: spec_fn(int) -> int, g: spec_fn(int) -> int, n: nat)
    requires
        forall|i: int| 0 <= i < n ==> #[trigger] f(i) == g(i),
    ensures
        sum(f, n) == sum(g, n),
    decreases n,
{
    if n > 0 {
        lemma_sum_ext(f, g, (n - 1) as nat);
    }
}

/// A sum of zero terms is zero.
pub proof fn lemma_sum_zero(f: spec_fn(int) -> int, n: nat)
    requires
        forall|i: int| 0 <= i < n ==> #[trigger] f(i) == 0,
    ensures
        sum(f, n) == 0,
    decreases n,
{
    if n > 0 {
        lemma_sum_zero(f, (n - 1) as nat);
    }
}

/// Summing `h = f - 2 g` term by term.
pub proof fn lemma_sum_sub_double(f: spec_fn(int) -> int, g: spec_fn(int) -> int, h: spec_fn(int) -> int, n: nat)
    requires
        forall|i: int| 0 <= i < n ==> #[trigger] h(i) == f(i) - 2 * g(i),
    ensures
        sum(h, n) == sum(f, n) - 2 * sum(g, n),
    decreases n,
{
    if n > 0 {
        lemma_sum_sub_double(f, g, h, (n - 1) as nat);
    }
}

/// Summing `h = f + g` term by term.
pub proof fn lemma_sum_add(f: spec_fn(int) -> int, g: spec_fn(int) -> int, h: spec_fn(int) -> int, n: nat)
    requires
        forall|i: int| 0 <= i < n ==> #[trigger] h(i) == f(i) + g(i),
    ensures
        sum(h, n) == sum(f, n) + sum(g, n),
    decreases n,
{
    if n > 0 {
        lemma_sum_add(f, g, h, (n - 1) as nat);
    }
}

/// Terms between `lo` and `hi` give a sum between `n lo` and `n hi`.
pub proof fn lemma_sum_bounds(f: spec_fn(int) -> int, n: nat, lo: int, hi: int)
    requires
        forall|i: int| 0 <= i < n ==> lo <= #[trigger] f(i) <= hi,
    ensures
        n * lo <= sum(f, n) <= n * hi,
    decreases n,
{
    if n > 0 {
        lemma_sum_bounds(f, (n - 1) as nat, lo, hi);
        assert(lo <= f(n - 1) <= hi);
        assert(n * lo == (n - 1) * lo + lo) by (nonlinear_arith);
        assert(n * hi == (n - 1) * hi + hi) by (nonlinear_arith);
    } else {
        assert(n * lo == 0 && n * hi == 0) by (nonlinear_arith)
            requires n == 0;
    }
}

/// The first `a + b` terms are the first `a` terms, then `b` more.
pub proof fn lemma_sum_split(f: spec_fn(int) -> int, a: nat, b: nat)
    ensures
        sum(f, a + b) == sum(f, a) + sum(|i: int| f(a + i), b),
    decreases b,
{
    if b > 0 {
        lemma_sum_split(f, a, (b - 1) as nat);
        assert(sum(f, a + b) == sum(f, (a + b - 1) as nat) + f(a + b - 1));
    }
}

/// `a b` terms, taken in `a` runs of `b`.
pub proof fn lemma_sum_chunks(f: spec_fn(int) -> int, a: nat, b: nat)
    ensures
        sum(f, a * b) == sum(|x: int| sum(|y: int| f(x * b + y), b), a),
    decreases a,
{
    let g = |x: int| sum(|y: int| f(x * b + y), b);
    if a > 0 {
        lemma_sum_chunks(f, (a - 1) as nat, b);
        assert(a * b == (a - 1) * b + b) by (nonlinear_arith);
        lemma_sum_split(f, ((a - 1) * b) as nat, b);
        lemma_sum_ext(|i: int| f((a - 1) * b + i), |y: int| f((a - 1) * b + y), b);
        assert(sum(g, a) == sum(g, (a - 1) as nat) + g(a - 1));
    } else {
        assert(a * b == 0) by (nonlinear_arith)
            requires a == 0;
    }
}

/// A double sum can be taken in either order.
pub proof fn lemma_sum_swap(g: spec_fn(int, int) -> int, a: nat, b: nat)
    ensures
        sum(|x: int| sum(|y: int| g(x, y), b), a) == sum(|y: int| sum(|x: int| g(x, y), a), b),
    decreases a,
{
    if a > 0 {
        lemma_sum_swap(g, (a - 1) as nat, b);
        let inner = |y: int| sum(|x: int| g(x, y), a);
        let prev = |y: int| sum(|x: int| g(x, y), (a - 1) as nat);
        let last = |y: int| g(a - 1, y);
        assert forall|y: int| 0 <= y < b implies #[trigger] inner(y) == prev(y) + last(y) by {
        }
        lemma_sum_add(prev, last, inner, b);
        let outer = |x: int| sum(|y: int| g(x, y), b);
        assert(sum(outer, a) == sum(outer, (a - 1) as nat) + outer(a - 1));
        assert(outer(a - 1) == sum(last, b));
    } else {
        lemma_sum_zero(|y: int| sum(|x: int| g(x, y), a), b);
    }
}

/// Summing over the indexes rotated cyclically by `t` gives the same sum.
pub proof fn lemma_sum_rotate(f: spec_fn(int) -> int, k: nat, t: int)
    requires
        k > 0,
    ensures
        sum(|j: int| f((j + t) % (k as int)), k) == sum(f, k),
{
    let ki = k as int;
    let u = t % ki;
    lemma_mod_bound(t, ki);
    let g = |j: int| f((j + t) % ki);
    // g(j) = f(j + u) below k - u, and f(j + u - k) above.
    lemma_sum_split(g, (ki - u) as nat, u as nat);
    lemma_sum_split(f, u as nat, (ki - u) as nat);
    assert forall|j: int| 0 <= j < ki - u implies #[trigger] g(j) == f(u + j) by {
        lemma_add_mod_noop(j, t, ki);
        lemma_small_mod(j as nat, k);
        lemma_small_mod((j + u) as nat, k);
    }
    lemma_sum_ext(g, |i: int| f(u + i), (ki - u) as nat);
    assert forall|i: int| 0 <= i < u implies #[trigger] g((ki - u) + i) == f(i) by {
        lemma_add_mod_noop((ki - u) + i, t, ki);
        lemma_small_mod(((ki - u) + i) as nat, k);
        assert((ki - u) + i + u == i + ki);
        lemma_mod_add_multiples_vanish(i, ki);
        lemma_small_mod(i as nat, k);
    }
    lemma_sum_ext(|i: int| g((ki - u) + i), f, u as nat);
    assert(((ki - u) as nat + u as nat) == k);
    assert((u as nat + (ki - u) as nat) == k);
    assert(sum(g, k) == sum(g, (ki - u) as nat) + sum(|i: int| g((ki - u) as nat + i), u as nat));
    assert(sum(f, k) == sum(f, u as nat) + sum(|i: int| f(u as nat + i), (ki - u) as nat));
    lemma_sum_ext(|i: int| g((ki - u) as nat + i), |i: int| g((ki - u) + i), u as nat);
    lemma_sum_ext(|i: int| f(u as nat + i), |i: int| f(u + i), (ki - u) as nat);
    assert(sum(g, (ki - u) as nat) == sum(|i: int| f(u + i), (ki - u) as nat));
    assert(sum(|i: int| g((ki - u) + i), u as nat) == sum(f, u as nat));
    assert(sum(g, k) == sum(f, k));
}


/// Summing `h = f - g` term by term.
pub proof fn lemma_sum_sub(f: spec_fn(int) -> int, g: spec_fn(int) -> int, h: spec_fn(int) -> int, n: nat)
    requires
        forall|i: int| 0 <= i < n ==> #[trigger] h(i) == f(i) - g(i),
    ensures
        sum(h, n) == sum(f, n) - sum(g, n),
    decreases n,
{
    if n > 0 {
        lemma_sum_sub(f, g, h, (n - 1) as nat);
    }
}

/// Summing the terms in reverse order gives the same sum.
pub proof fn lemma_sum_reverse(f: spec_fn(int) -> int, n: nat)
    ensures
        sum(|i: int| f(n - 1 - i), n) == sum(f, n),
    decreases n,
{
    if n > 0 {
        let g = |i: int| f(n - 1 - i);
        lemma_sum_split(g, 1, (n - 1) as nat);
        let rest = |i: int| g(1 + i);
        lemma_sum_reverse(f, (n - 1) as nat);
        lemma_sum_ext(rest, |i: int| f((n - 1) as nat - 1 - i), (n - 1) as nat);
        assert(sum(g, 0) == 0);
        assert(sum(g, 1) == g(0));
        assert(((1 + (n - 1)) as nat) == n);
    }
}

/// A constant factor can be taken out of a sum.
pub proof fn lemma_sum_scale(f: spec_fn(int) -> int, c: int, n: nat)
    ensures
        sum(|i: int| c * f(i), n) == c * sum(f, n),
    decreases n,
{
    if n > 0 {
        lemma_sum_scale(f, c, (n - 1) as nat);
        assert(c * sum(f, n) == c * sum(f, (n - 1) as nat) + c * f(n - 1)) by (nonlinear_arith)
            requires
                sum(f, n) == sum(f, (n - 1) as nat) + f(n - 1);
    }
}

/// Sums of terms that agree modulo `q` agree modulo `q`.
pub proof fn lemma_sum_cong_mod(f: spec_fn(int) -> int, g: spec_fn(int) -> int, n: nat, q: int)
    requires
        q > 0,
        forall|i: int| 0 <= i < n ==> #[trigger] f(i) % q == g(i) % q,
    ensures
        sum(f, n) % q == sum(g, n) % q,
    decreases n,
{
    if n > 0 {
        lemma_sum_cong_mod(f, g, (n - 1) as nat, q);
        lemma_add_mod_noop(sum(f, (n - 1) as nat), f(n - 1), q);
        lemma_add_mod_noop(sum(g, (n - 1) as nat), g(n - 1), q);
    }
}

/// A sum whose only non-zero term is the one at `k`.
pub proof fn lemma_sum_single(f: spec_fn(int) -> int, n: nat, k: int)
    requires
        0 <= k < n,
        forall|i: int| 0 <= i < n && i != k ==> #[trigger] f(i) == 0,
    ensures
        sum(f, n) == f(k),
    decreases n,
{
    if n - 1 > k {
        lemma_sum_single(f, (n - 1) as nat, k);
    } else {
        lemma_sum_zero(f, (n - 1) as nat);
    }
}

} // verus!
