//! The mathematical model of polynomials: coefficient sequences over the integers, their
//! products, and their images in the negacyclic ring `Z_q[X] / (X^n + 1)`.
use vstd::arithmetic::div_mod::*;
use vstd::arithmetic::mul::*;
use vstd::prelude::*;

use crate::primitives::sum::{lemma_sum_sub, sum};

verus! {

/// The coefficient of `X^i` in the coefficient sequence `s` (zero outside the sequence).
pub open spec fn get(s: Seq<int>, i: int) -> int {
    if 0 <= i < s.len() {
        s[i]
    } else {
        0
    }
}

/// A vector of stored coefficients, read as integers.
pub open spec fn ints(v: Seq<u128>) -> Seq<int> {
    v.map_values(|x: u128| x as int)
}

/// `+1` for an even number of wraps around `X^n = -1`, `-1` for an odd number.
pub open spec fn wrap_sign(j: int) -> int {
    if j % 2 == 0 {
        1
    } else {
        -1
    }
}

/// `sum_{i < len} get(a, i) * get(b, k - i)`: the coefficient of `X^k` in `a * b`, using the
/// first `len` coefficients of `a`.
pub open spec fn conv_upto(a: Seq<int>, b: Seq<int>, k: int, len: nat) -> int
    decreases len,
{
    if len == 0 {
        0
    } else {
        conv_upto(a, b, k, (len - 1) as nat) + get(a, len - 1) * get(b, k - (len - 1))
    }
}

/// The coefficient of `X^k` in the product `a * b` over the integers.
pub open spec fn conv(a: Seq<int>, b: Seq<int>, k: int) -> int {
    conv_upto(a, b, k, a.len())
}

/// The coefficients of the product `a * b` over the integers.
pub open spec fn conv_seq(a: Seq<int>, b: Seq<int>) -> Seq<int> {
    Seq::new(a.len() + b.len(), |k: int| conv(a, b, k))
}

/// The number of indexes from `lo` up to `hi` (zero when `hi <= lo`).
pub open spec fn span(lo: int, hi: int) -> nat {
    if lo < hi {
        (hi - lo) as nat
    } else {
        0
    }
}

/// `get(p, k) - get(p, k + n) + get(p, k + 2n) - ...`, over the indexes below `hi`:
/// the coefficient of `X^k` after folding `p` with `X^n = -1`.
pub open spec fn fold_upto(p: Seq<int>, n: int, k: int, hi: int) -> int
    decreases span(k, hi),
{
    if n <= 0 || k >= hi {
        0
    } else {
        get(p, k) - fold_upto(p, n, k + n, hi)
    }
}

/// The coefficient of `X^k` of `p` in `Z_q[X] / (X^n + 1)`, as a value in `[0, q)`.
pub open spec fn ring_coeff(p: Seq<int>, n: nat, q: int, k: int) -> int {
    fold_upto(p, n as int, k, p.len() as int) % q
}

/// The image of the coefficient sequence `p` in `Z_q[X] / (X^n + 1)`: `n` coefficients in `[0, q)`.
pub open spec fn ring_seq(p: Seq<int>, n: nat, q: int) -> Seq<int> {
    Seq::new(n, |k: int| ring_coeff(p, n, q, k))
}

/// The product of `a` and `b` in `Z_q[X] / (X^n + 1)`.
pub open spec fn ring_mul(a: Seq<int>, b: Seq<int>, n: nat, q: int) -> Seq<int> {
    ring_seq(conv_seq(a, b), n, q)
}

/// The first `n` coefficients of `s`, padded with zeroes.
pub open spec fn dense(s: Seq<int>, n: nat) -> Seq<int> {
    Seq::new(n, |i: int| get(s, i))
}

/// Every stored coefficient is a reduced value modulo `q`.
pub open spec fn coeffs_reduced(v: Seq<u128>, q: int) -> bool {
    forall|i: int| 0 <= i < v.len() ==> (v[i] as int) < q
}

/// No leading zero coefficient is stored.
pub open spec fn trimmed(v: Seq<u128>) -> bool {
    v.len() > 0 ==> v.last() != 0
}

/// The canonical form of a ring element: reduced coefficients, fewer than `n` of them, and no
/// leading zero.
pub open spec fn canonical(v: Seq<u128>, n: nat, q: int) -> bool {
    &&& coeffs_reduced(v, q)
    &&& v.len() <= n
    &&& v.len() > 0 ==> v.last() != 0
}

/// Adding one more index `hi` to a fold changes it by that coefficient, with its wrap sign, when
/// `hi` is congruent to `k`.
pub proof fn lemma_fold_step(p: Seq<int>, n: int, k: int, hi: int)
    requires
        n > 0,
        k <= hi,
    ensures
        fold_upto(p, n, k, hi + 1) == fold_upto(p, n, k, hi) + (if (hi - k) % n == 0 {
            wrap_sign((hi - k) / n) * get(p, hi)
        } else {
            0
        }),
    decreases hi - k,
{
    if k == hi {
        assert(fold_upto(p, n, k + n, hi + 1) == 0);
        lemma_small_mod(0, n as nat);
        lemma_div_of0(n);
    } else if k + n <= hi {
        lemma_fold_step(p, n, k + n, hi);
        lemma_mod_sub_multiples_vanish(hi - k, n);
        assert((hi - k - n) / n == (hi - k) / n - 1) by {
            lemma_div_minus_one(hi - k, n);
        }
        assert(((hi - k) / n - 1) % 2 == 0 <==> (hi - k) / n % 2 != 0) by {
            lemma_mod_sub_multiples_vanish((hi - k) / n + 1, 2);
            lemma_mod_add_multiples_vanish((hi - k) / n - 1, 2);
        }
    } else {
        assert(fold_upto(p, n, k + n, hi + 1) == 0);
        assert(fold_upto(p, n, k + n, hi) == 0);
        lemma_small_mod((hi - k) as nat, n as nat);
    }
}

/// A fold only reads the coefficients below `hi`, so it agrees for any bound past the end.
pub proof fn lemma_fold_past_end(p: Seq<int>, n: int, k: int, hi: int)
    requires
        n > 0,
        hi >= p.len(),
    ensures
        fold_upto(p, n, k, hi) == fold_upto(p, n, k, p.len() as int),
    decreases span(k, hi),
{
    if k < hi {
        lemma_fold_past_end(p, n, k + n, hi);
        if k >= p.len() {
            lemma_fold_zero_tail(p, n, k, hi);
        }
    }
}

/// Past the end of `p`, a fold is zero.
pub proof fn lemma_fold_zero_tail(p: Seq<int>, n: int, k: int, hi: int)
    requires
        n > 0,
        k >= p.len(),
    ensures
        fold_upto(p, n, k, hi) == 0,
    decreases span(k, hi),
{
    if k < hi {
        lemma_fold_zero_tail(p, n, k + n, hi);
    }
}

/// Two canonical vectors with the same dense coefficients are equal.
pub proof fn lemma_canonical_unique(v1: Seq<u128>, v2: Seq<u128>, n: nat, q: int)
    requires
        canonical(v1, n, q),
        canonical(v2, n, q),
        dense(ints(v1), n) == dense(ints(v2), n),
    ensures
        v1 == v2,
{
    if v1.len() < v2.len() {
        let i = v2.len() - 1;
        assert(dense(ints(v1), n)[i] == get(ints(v1), i));
        assert(dense(ints(v2), n)[i] == get(ints(v2), i));
    } else if v2.len() < v1.len() {
        let i = v1.len() - 1;
        assert(dense(ints(v1), n)[i] == get(ints(v1), i));
        assert(dense(ints(v2), n)[i] == get(ints(v2), i));
    }
    assert forall|i: int| 0 <= i < v1.len() implies v1[i] == v2[i] by {
        assert(dense(ints(v1), n)[i] == get(ints(v1), i));
        assert(dense(ints(v2), n)[i] == get(ints(v2), i));
    }
    assert(v1 =~= v2);
}

/// For a short vector of reduced coefficients, the ring image is its dense coefficient sequence.
pub proof fn lemma_canonical_ring_seq(v: Seq<u128>, n: nat, q: int)
    requires
        coeffs_reduced(v, q),
        v.len() <= n,
        q > 0,
    ensures
        ring_seq(ints(v), n, q) == dense(ints(v), n),
{
    let p = ints(v);
    assert forall|k: int| 0 <= k < n implies ring_coeff(p, n, q, k) == get(p, k) by {
        if n > 0 {
            lemma_fold_zero_tail(p, n as int, k + n, p.len() as int);
        }
        if k < p.len() {
            lemma_small_mod(p[k] as nat, q as nat);
        } else {
            lemma_small_mod(0, q as nat);
        }
    }
    assert(ring_seq(p, n, q) =~= dense(p, n));
}

} // verus!

verus! {

/// Two coefficient sequences that agree modulo `q` at every index.
pub open spec fn cong(p: Seq<int>, r: Seq<int>, q: int) -> bool {
    forall|i: int| #[trigger] get(p, i) % q == #[trigger] get(r, i) % q
}

/// Folds of congruent sequences are congruent.
pub proof fn lemma_fold_cong(p: Seq<int>, r: Seq<int>, n: int, q: int, k: int, hi: int)
    requires
        n > 0,
        q > 0,
        cong(p, r, q),
    ensures
        fold_upto(p, n, k, hi) % q == fold_upto(r, n, k, hi) % q,
    decreases span(k, hi),
{
    if k < hi {
        lemma_fold_cong(p, r, n, q, k + n, hi);
        assert(get(p, k) % q == get(r, k) % q);
        lemma_sub_mod_noop(get(p, k), fold_upto(p, n, k + n, hi), q);
        lemma_sub_mod_noop(get(r, k), fold_upto(r, n, k + n, hi), q);
    }
}

/// Congruent sequences have the same image in the ring.
pub proof fn lemma_ring_seq_cong(p: Seq<int>, r: Seq<int>, n: nat, q: int)
    requires
        n > 0,
        q > 0,
        cong(p, r, q),
    ensures
        ring_seq(p, n, q) == ring_seq(r, n, q),
{
    let hi = if p.len() < r.len() {
        r.len() as int
    } else {
        p.len() as int
    };
    assert forall|k: int| 0 <= k < n implies ring_coeff(p, n, q, k) == ring_coeff(r, n, q, k) by {
        lemma_fold_past_end(p, n as int, k, hi);
        lemma_fold_past_end(r, n as int, k, hi);
        lemma_fold_cong(p, r, n as int, q, k, hi);
    }
    assert(ring_seq(p, n, q) =~= ring_seq(r, n, q));
}

/// A short sequence folds to itself.
pub proof fn lemma_fold_short(p: Seq<int>, n: int, k: int)
    requires
        n > 0,
        0 <= k < n,
        p.len() <= n,
    ensures
        fold_upto(p, n, k, p.len() as int) == get(p, k),
{
    if k < p.len() {
        assert(fold_upto(p, n, k + n, p.len() as int) == 0);
    }
}

} // verus!

verus! {

/// The product has no coefficients below `X^0` or past `X^(len a + len b - 2)`.
pub proof fn lemma_conv_outside(a: Seq<int>, b: Seq<int>, k: int, len: nat)
    requires
        len <= a.len(),
        k < 0 || k >= a.len() + b.len() - 1 || b.len() == 0,
    ensures
        conv_upto(a, b, k, len) == 0,
    decreases len,
{
    if len > 0 {
        lemma_conv_outside(a, b, k, (len - 1) as nat);
    }
}

/// Summing past the end of `a` adds nothing.
pub proof fn lemma_conv_upto_past_end(a: Seq<int>, b: Seq<int>, k: int, len: nat)
    requires
        len >= a.len(),
    ensures
        conv_upto(a, b, k, len) == conv(a, b, k),
    decreases len,
{
    if len > a.len() {
        lemma_conv_upto_past_end(a, b, k, (len - 1) as nat);
    }
}

} // verus!

verus! {

/// Coefficient-wise sum, padded with zeroes.
pub open spec fn padd(p: Seq<int>, r: Seq<int>) -> Seq<int> {
    Seq::new(if p.len() < r.len() { r.len() } else { p.len() }, |i: int| get(p, i) + get(r, i))
}

/// Coefficient-wise difference, padded with zeroes.
pub open spec fn psub(p: Seq<int>, r: Seq<int>) -> Seq<int> {
    Seq::new(if p.len() < r.len() { r.len() } else { p.len() }, |i: int| get(p, i) - get(r, i))
}

/// `p * X^m`.
pub open spec fn shift(p: Seq<int>, m: nat) -> Seq<int> {
    Seq::new(p.len() + m, |i: int| get(p, i - m))
}

pub proof fn lemma_get_padd(p: Seq<int>, r: Seq<int>, i: int)
    ensures
        get(padd(p, r), i) == get(p, i) + get(r, i),
{
}

pub proof fn lemma_get_psub(p: Seq<int>, r: Seq<int>, i: int)
    ensures
        get(psub(p, r), i) == get(p, i) - get(r, i),
{
}

pub proof fn lemma_get_shift(p: Seq<int>, m: nat, i: int)
    ensures
        get(shift(p, m), i) == get(p, i - m),
{
}

/// Folding is additive.
pub proof fn lemma_fold_add(p: Seq<int>, p1: Seq<int>, p2: Seq<int>, n: int, k: int, hi: int)
    requires
        forall|i: int| #[trigger] get(p, i) == get(p1, i) + get(p2, i),
    ensures
        fold_upto(p, n, k, hi) == fold_upto(p1, n, k, hi) + fold_upto(p2, n, k, hi),
    decreases span(k, hi),
{
    if n > 0 && k < hi {
        lemma_fold_add(p, p1, p2, n, k + n, hi);
        assert(get(p, k) == get(p1, k) + get(p2, k));
    }
}

/// Folding is subtractive.
pub proof fn lemma_fold_sub(p: Seq<int>, p1: Seq<int>, p2: Seq<int>, n: int, k: int, hi: int)
    requires
        forall|i: int| #[trigger] get(p, i) == get(p1, i) - get(p2, i),
    ensures
        fold_upto(p, n, k, hi) == fold_upto(p1, n, k, hi) - fold_upto(p2, n, k, hi),
    decreases span(k, hi),
{
    if n > 0 && k < hi {
        lemma_fold_sub(p, p1, p2, n, k + n, hi);
        assert(get(p, k) == get(p1, k) - get(p2, k));
    }
}

/// The length bound every fold of `a`, `b` and `c` can share.
pub open spec fn max3(a: nat, b: nat, c: nat) -> int {
    if a >= b && a >= c {
        a as int
    } else if b >= c {
        b as int
    } else {
        c as int
    }
}

/// The ring image of a sum is the sum of the ring images.
pub proof fn lemma_ring_add(p: Seq<int>, p1: Seq<int>, p2: Seq<int>, n: nat, q: int)
    requires
        n > 0,
        q > 0,
        forall|i: int| #[trigger] get(p, i) == get(p1, i) + get(p2, i),
    ensures
        forall|k: int|
            0 <= k < n ==> #[trigger] ring_seq(p, n, q)[k] == (ring_seq(p1, n, q)[k] + ring_seq(p2, n, q)[k]) % q,
{
    let hi = max3(p.len(), p1.len(), p2.len());
    assert forall|k: int| 0 <= k < n implies #[trigger] ring_seq(p, n, q)[k] == (ring_seq(p1, n, q)[k] + ring_seq(p2, n, q)[k]) % q by {
        lemma_fold_past_end(p, n as int, k, hi);
        lemma_fold_past_end(p1, n as int, k, hi);
        lemma_fold_past_end(p2, n as int, k, hi);
        lemma_fold_add(p, p1, p2, n as int, k, hi);
        lemma_add_mod_noop(fold_upto(p1, n as int, k, hi), fold_upto(p2, n as int, k, hi), q);
    }
}

/// The ring image of a difference is the difference of the ring images.
pub proof fn lemma_ring_sub(p: Seq<int>, p1: Seq<int>, p2: Seq<int>, n: nat, q: int)
    requires
        n > 0,
        q > 0,
        forall|i: int| #[trigger] get(p, i) == get(p1, i) - get(p2, i),
    ensures
        forall|k: int|
            0 <= k < n ==> #[trigger] ring_seq(p, n, q)[k] == (ring_seq(p1, n, q)[k] - ring_seq(p2, n, q)[k]) % q,
{
    let hi = max3(p.len(), p1.len(), p2.len());
    assert forall|k: int| 0 <= k < n implies #[trigger] ring_seq(p, n, q)[k] == (ring_seq(p1, n, q)[k] - ring_seq(p2, n, q)[k]) % q by {
        lemma_fold_past_end(p, n as int, k, hi);
        lemma_fold_past_end(p1, n as int, k, hi);
        lemma_fold_past_end(p2, n as int, k, hi);
        lemma_fold_sub(p, p1, p2, n as int, k, hi);
        lemma_sub_mod_noop(fold_upto(p1, n as int, k, hi), fold_upto(p2, n as int, k, hi), q);
    }
}

/// Sums of ring-equivalent sequences are ring-equivalent.
pub proof fn lemma_ring_add_cong(p: Seq<int>, p1: Seq<int>, p2: Seq<int>, r: Seq<int>, r1: Seq<int>, r2: Seq<int>, n: nat, q: int)
    requires
        n > 0,
        q > 0,
        forall|i: int| #[trigger] get(p, i) == get(p1, i) + get(p2, i),
        forall|i: int| #[trigger] get(r, i) == get(r1, i) + get(r2, i),
        ring_seq(p1, n, q) == ring_seq(r1, n, q),
        ring_seq(p2, n, q) == ring_seq(r2, n, q),
    ensures
        ring_seq(p, n, q) == ring_seq(r, n, q),
{
    lemma_ring_add(p, p1, p2, n, q);
    lemma_ring_add(r, r1, r2, n, q);
    assert(ring_seq(p, n, q) =~= ring_seq(r, n, q));
}

/// Differences of ring-equivalent sequences are ring-equivalent.
pub proof fn lemma_ring_sub_cong(p: Seq<int>, p1: Seq<int>, p2: Seq<int>, r: Seq<int>, r1: Seq<int>, r2: Seq<int>, n: nat, q: int)
    requires
        n > 0,
        q > 0,
        forall|i: int| #[trigger] get(p, i) == get(p1, i) - get(p2, i),
        forall|i: int| #[trigger] get(r, i) == get(r1, i) - get(r2, i),
        ring_seq(p1, n, q) == ring_seq(r1, n, q),
        ring_seq(p2, n, q) == ring_seq(r2, n, q),
    ensures
        ring_seq(p, n, q) == ring_seq(r, n, q),
{
    lemma_ring_sub(p, p1, p2, n, q);
    lemma_ring_sub(r, r1, r2, n, q);
    assert(ring_seq(p, n, q) =~= ring_seq(r, n, q));
}

/// Shifting re-indexes a fold.
pub proof fn lemma_fold_shift(p: Seq<int>, m: nat, n: int, k: int, hi: int)
    ensures
        fold_upto(shift(p, m), n, k, hi) == fold_upto(p, n, k - m, hi - m),
    decreases span(k, hi),
{
    if n > 0 && k < hi {
        lemma_fold_shift(p, m, n, k + n, hi);
        lemma_get_shift(p, m, k);
    }
}

/// The coefficient of `X^j` of a ring image, extended to negative `j` with `X^(j) = -X^(j + n)`.
pub open spec fn ring_ext(r: Seq<int>, n: nat, q: int, j: int) -> int
    decreases span(j, 0),
{
    if j >= 0 || n == 0 {
        get(r, j)
    } else {
        (-ring_ext(r, n, q, j + n)) % q
    }
}

/// Below `n`, a fold modulo `q` only depends on the ring image.
pub proof fn lemma_fold_ring_ext(p: Seq<int>, n: nat, q: int, j: int, hi: int)
    requires
        n > 0,
        q > 0,
        j < n,
        hi >= p.len(),
    ensures
        fold_upto(p, n as int, j, hi) % q == ring_ext(ring_seq(p, n, q), n, q, j),
    decreases span(j, 0),
{
    if j >= 0 {
        lemma_fold_past_end(p, n as int, j, hi);
    } else {
        lemma_fold_ring_ext(p, n, q, j + n, hi);
        assert(fold_upto(p, n as int, j, hi) == 0 - fold_upto(p, n as int, j + n, hi));
        lemma_sub_mod_noop(0, fold_upto(p, n as int, j + n, hi), q);
        lemma_small_mod(0, q as nat);
    }
}

/// Shifting preserves ring equivalence.
pub proof fn lemma_ring_shift_cong(p: Seq<int>, r: Seq<int>, m: nat, n: nat, q: int)
    requires
        n > 0,
        q > 0,
        ring_seq(p, n, q) == ring_seq(r, n, q),
    ensures
        ring_seq(shift(p, m), n, q) == ring_seq(shift(r, m), n, q),
{
    assert forall|k: int| 0 <= k < n implies ring_seq(shift(p, m), n, q)[k] == ring_seq(shift(r, m), n, q)[k] by {
        lemma_fold_shift(p, m, n as int, k, shift(p, m).len() as int);
        lemma_fold_shift(r, m, n as int, k, shift(r, m).len() as int);
        lemma_fold_ring_ext(p, n, q, k - m, p.len() as int);
        lemma_fold_ring_ext(r, n, q, k - m, r.len() as int);
    }
    assert(ring_seq(shift(p, m), n, q) =~= ring_seq(shift(r, m), n, q));
}

/// Splitting `s` at `m` and shifting the upper part back by `m` gives `s` again, in the ring.
pub proof fn lemma_ring_split_at(s: Seq<int>, m: nat, n: nat, q: int)
    requires
        n > 0,
        q > 0,
        m <= s.len(),
    ensures
        forall|k: int|
            0 <= k < n ==> #[trigger] ring_seq(s, n, q)[k] == (ring_seq(shift(s.subrange(m as int, s.len() as int), m), n, q)[k]
                + ring_seq(s.subrange(0, m as int), n, q)[k]) % q,
{
    let hi = s.subrange(m as int, s.len() as int);
    let lo = s.subrange(0, m as int);
    assert forall|i: int| #[trigger] get(s, i) == get(shift(hi, m), i) + get(lo, i) by {
        lemma_get_shift(hi, m, i);
    }
    lemma_ring_add(s, shift(hi, m), lo, n, q);
}

} // verus!

verus! {

/// Outside its stored range a product coefficient is zero, so `get` and `conv` agree everywhere.
pub proof fn lemma_get_conv_seq(a: Seq<int>, b: Seq<int>, k: int)
    ensures
        get(conv_seq(a, b), k) == conv(a, b, k),
{
    if !(0 <= k < a.len() + b.len()) {
        lemma_conv_outside(a, b, k, a.len());
    }
}

/// The product is additive in its left factor.
pub proof fn lemma_conv_upto_add_left(a: Seq<int>, a1: Seq<int>, a2: Seq<int>, b: Seq<int>, k: int, len: nat)
    requires
        forall|i: int| #[trigger] get(a, i) == get(a1, i) + get(a2, i),
    ensures
        conv_upto(a, b, k, len) == conv_upto(a1, b, k, len) + conv_upto(a2, b, k, len),
    decreases len,
{
    if len > 0 {
        lemma_conv_upto_add_left(a, a1, a2, b, k, (len - 1) as nat);
        let i = len - 1;
        assert(get(a, i) == get(a1, i) + get(a2, i));
        lemma_mul_is_distributive_add_other_way(get(b, k - i), get(a1, i), get(a2, i));
    }
}

/// A left factor shifted by `X^h` has no terms below `h`.
pub proof fn lemma_conv_upto_shift_low(s: Seq<int>, b: Seq<int>, h: nat, k: int, len: nat)
    requires
        len <= h,
        forall|i: int| i < h ==> #[trigger] get(s, i) == 0,
    ensures
        conv_upto(s, b, k, len) == 0,
    decreases len,
{
    if len > 0 {
        lemma_conv_upto_shift_low(s, b, h, k, (len - 1) as nat);
        assert(get(s, len - 1) == 0);
    }
}

/// Shifting the left factor by `X^h` shifts the product by `X^h`.
pub proof fn lemma_conv_upto_shift_left(s: Seq<int>, r: Seq<int>, b: Seq<int>, h: nat, k: int, len: nat)
    requires
        len >= h,
        forall|i: int| #[trigger] get(s, i) == get(r, i - h),
    ensures
        conv_upto(s, b, k, len) == conv_upto(r, b, k - h, (len - h) as nat),
    decreases len,
{
    if len > h {
        lemma_conv_upto_shift_left(s, r, b, h, k, (len - 1) as nat);
        assert(get(s, len - 1) == get(r, len - 1 - h));
    } else {
        assert forall|i: int| i < h implies #[trigger] get(s, i) == 0 by {
            assert(get(s, i) == get(r, i - h));
        }
        lemma_conv_upto_shift_low(s, b, h, k, len);
    }
}

/// Splitting the left factor as `al + X^h ar` splits the product.
pub proof fn lemma_conv_split_left(a: Seq<int>, al: Seq<int>, ar: Seq<int>, b: Seq<int>, h: nat, k: int)
    requires
        forall|i: int| #[trigger] get(a, i) == get(al, i) + get(ar, i - h),
    ensures
        conv(a, b, k) == conv(al, b, k) + conv(ar, b, k - h),
{
    let s = shift(ar, h);
    let len = max3(a.len(), al.len(), ar.len() + h) as nat;
    assert forall|i: int| #[trigger] get(a, i) == get(al, i) + get(s, i) by {
        lemma_get_shift(ar, h, i);
    }
    lemma_conv_upto_past_end(a, b, k, len);
    lemma_conv_upto_past_end(al, b, k, len);
    lemma_conv_upto_add_left(a, al, s, b, k, len);
    assert forall|i: int| #[trigger] get(s, i) == get(ar, i - h) by {
        lemma_get_shift(ar, h, i);
    }
    lemma_conv_upto_shift_left(s, ar, b, h, k, len);
    lemma_conv_upto_past_end(ar, b, k - h, (len - h) as nat);
}

/// Splitting the right factor as `bl + X^h br` splits the product.
pub proof fn lemma_conv_upto_split_right(a: Seq<int>, b: Seq<int>, bl: Seq<int>, br: Seq<int>, h: nat, k: int, len: nat)
    requires
        forall|j: int| #[trigger] get(b, j) == get(bl, j) + get(br, j - h),
    ensures
        conv_upto(a, b, k, len) == conv_upto(a, bl, k, len) + conv_upto(a, br, k - h, len),
    decreases len,
{
    if len > 0 {
        lemma_conv_upto_split_right(a, b, bl, br, h, k, (len - 1) as nat);
        let i = len - 1;
        assert(get(b, k - i) == get(bl, k - i) + get(br, k - i - h));
        lemma_mul_is_distributive_add(get(a, i), get(bl, k - i), get(br, k - i - h));
    }
}

/// Splitting the right factor as `bl + X^h br` splits the product.
pub proof fn lemma_conv_split_right(a: Seq<int>, b: Seq<int>, bl: Seq<int>, br: Seq<int>, h: nat, k: int)
    requires
        forall|j: int| #[trigger] get(b, j) == get(bl, j) + get(br, j - h),
    ensures
        conv(a, b, k) == conv(a, bl, k) + conv(a, br, k - h),
{
    lemma_conv_upto_split_right(a, b, bl, br, h, k, a.len());
}

/// Products of congruent factors are congruent.
pub proof fn lemma_conv_upto_cong(a: Seq<int>, a2: Seq<int>, b: Seq<int>, b2: Seq<int>, q: int, k: int, len: nat)
    requires
        q > 0,
        cong(a, a2, q),
        cong(b, b2, q),
    ensures
        conv_upto(a, b, k, len) % q == conv_upto(a2, b2, k, len) % q,
    decreases len,
{
    if len > 0 {
        let i = len - 1;
        lemma_conv_upto_cong(a, a2, b, b2, q, k, (len - 1) as nat);
        assert(get(a, i) % q == get(a2, i) % q);
        assert(get(b, k - i) % q == get(b2, k - i) % q);
        lemma_mul_mod_noop(get(a, i), get(b, k - i), q);
        lemma_mul_mod_noop(get(a2, i), get(b2, k - i), q);
        lemma_add_mod_noop(conv_upto(a, b, k, (len - 1) as nat), get(a, i) * get(b, k - i), q);
        lemma_add_mod_noop(conv_upto(a2, b2, k, (len - 1) as nat), get(a2, i) * get(b2, k - i), q);
    }
}

/// Products of congruent factors are congruent.
pub proof fn lemma_conv_cong(a: Seq<int>, a2: Seq<int>, b: Seq<int>, b2: Seq<int>, q: int, k: int)
    requires
        q > 0,
        cong(a, a2, q),
        cong(b, b2, q),
    ensures
        conv(a, b, k) % q == conv(a2, b2, k) % q,
{
    let len = if a.len() < a2.len() {
        a2.len()
    } else {
        a.len()
    };
    lemma_conv_upto_past_end(a, b, k, len);
    lemma_conv_upto_past_end(a2, b2, k, len);
    lemma_conv_upto_cong(a, a2, b, b2, q, k, len);
}

/// Karatsuba's identity: with `a = al + X^h ar` and `b = bl + X^h br`,
/// `a * b = al bl + X^h (al br + ar bl) + X^(2h) ar br`, and
/// `(al + ar)(bl + br) = al bl + al br + ar bl + ar br`.
pub proof fn lemma_karatsuba_identity(
    a: Seq<int>,
    al: Seq<int>,
    ar: Seq<int>,
    b: Seq<int>,
    bl: Seq<int>,
    br: Seq<int>,
    h: nat,
    k: int,
)
    requires
        forall|i: int| #[trigger] get(a, i) == get(al, i) + get(ar, i - h),
        forall|j: int| #[trigger] get(b, j) == get(bl, j) + get(br, j - h),
    ensures
        conv(a, b, k) == conv(al, bl, k) + (conv(al, br, k - h) + conv(ar, bl, k - h)) + conv(ar, br, k - 2 * h),
        conv(padd(al, ar), padd(bl, br), k) == conv(al, bl, k) + conv(al, br, k) + conv(ar, bl, k) + conv(ar, br, k),
{
    lemma_conv_split_left(a, al, ar, b, h, k);
    lemma_conv_split_right(al, b, bl, br, h, k);
    lemma_conv_split_right(ar, b, bl, br, h, k - h);
    let sa = padd(al, ar);
    let sb = padd(bl, br);
    assert forall|i: int| #[trigger] get(sa, i) == get(al, i) + get(ar, i - 0) by {
        lemma_get_padd(al, ar, i);
    }
    assert forall|j: int| #[trigger] get(sb, j) == get(bl, j) + get(br, j - 0) by {
        lemma_get_padd(bl, br, j);
    }
    lemma_conv_split_left(sa, al, ar, sb, 0, k);
    lemma_conv_split_right(al, sb, bl, br, 0, k);
    lemma_conv_split_right(ar, sb, bl, br, 0, k);
}


/// A convolution, as a sum of products.
pub proof fn lemma_conv_upto_sum(a: Seq<int>, b: Seq<int>, k: int, len: nat)
    ensures
        conv_upto(a, b, k, len) == sum(|i: int| get(a, i) * get(b, k - i), len),
    decreases len,
{
    if len > 0 {
        lemma_conv_upto_sum(a, b, k, (len - 1) as nat);
    }
}

/// The coefficient of `X^k` of `a * b` in `Z[X] / (X^n + 1)`, before any reduction modulo `q`:
/// products that wrap past `X^n` count negatively.
pub open spec fn negacyclic(a: Seq<int>, b: Seq<int>, n: nat, k: int) -> int {
    fold_upto(conv_seq(a, b), n as int, k, (a.len() + b.len()) as int)
}

/// The negacyclic coefficient as one sum over the first factor: `a_i b_(k - i)` for `i <= k`,
/// and `-a_i b_(k + n - i)` past it.
pub open spec fn negacyclic_term(a: Seq<int>, b: Seq<int>, n: nat, k: int, i: int) -> int {
    if i <= k {
        get(a, i) * get(b, k - i)
    } else {
        -(get(a, i) * get(b, k + n - i))
    }
}

/// For factors shorter than `n`, the negacyclic coefficient is the sum of its terms.
pub proof fn lemma_negacyclic_sum(a: Seq<int>, b: Seq<int>, n: nat, k: int)
    requires
        a.len() <= n,
        b.len() <= n,
        0 <= k < n,
    ensures
        negacyclic(a, b, n, k) == sum(|i: int| negacyclic_term(a, b, n, k, i), n),
{
    let p = conv_seq(a, b);
    let hi = (a.len() + b.len()) as int;
    if k < hi {
        assert(fold_upto(p, n as int, k, hi) == get(p, k) - fold_upto(p, n as int, k + n, hi));
        if k + n < hi {
            assert(fold_upto(p, n as int, k + n, hi) == get(p, k + n) - fold_upto(p, n as int, k + 2 * n, hi));
            lemma_fold_zero_tail(p, n as int, k + 2 * n, hi);
        } else {
            lemma_get_conv_seq(a, b, k + n);
            lemma_conv_outside(a, b, k + n, a.len());
        }
    } else {
        lemma_get_conv_seq(a, b, k);
        lemma_conv_outside(a, b, k, a.len());
        lemma_get_conv_seq(a, b, k + n);
        lemma_conv_outside(a, b, k + n, a.len());
    }
    lemma_get_conv_seq(a, b, k);
    lemma_get_conv_seq(a, b, k + n);
    lemma_conv_upto_past_end(a, b, k, n);
    lemma_conv_upto_past_end(a, b, k + n, n);
    lemma_conv_upto_sum(a, b, k, n);
    lemma_conv_upto_sum(a, b, k + n, n);
    let f = |i: int| get(a, i) * get(b, k - i);
    let g = |i: int| get(a, i) * get(b, k + n - i);
    let h = |i: int| negacyclic_term(a, b, n, k, i);
    assert forall|i: int| 0 <= i < n implies #[trigger] h(i) == f(i) - g(i) by {
        if i <= k {
            assert(get(b, k + n - i) == 0);
        } else {
            assert(get(b, k - i) == 0);
        }
    }
    lemma_sum_sub(f, g, h, n);
}


/// Convolutions with left factors that agree at every index agree.
proof fn lemma_conv_upto_get_ext(x: Seq<int>, y: Seq<int>, b: Seq<int>, k: int, len: nat)
    requires
        forall|i: int| #[trigger] get(x, i) == get(y, i),
    ensures
        conv_upto(x, b, k, len) == conv_upto(y, b, k, len),
    decreases len,
{
    if len > 0 {
        lemma_conv_upto_get_ext(x, y, b, k, (len - 1) as nat);
        assert(get(x, len - 1) == get(y, len - 1));
    }
}

/// The ring product only depends on the coefficients of the left factor, not on how many
/// trailing zeroes it stores.
pub proof fn lemma_ring_mul_get_ext(x: Seq<int>, y: Seq<int>, b: Seq<int>, n: nat, q: int)
    requires
        n > 0,
        q > 0,
        forall|i: int| #[trigger] get(x, i) == get(y, i),
    ensures
        ring_mul(x, b, n, q) == ring_mul(y, b, n, q),
{
    let l = if x.len() < y.len() { y.len() } else { x.len() };
    assert forall|k: int| #[trigger] get(conv_seq(x, b), k) % q == #[trigger] get(conv_seq(y, b), k) % q by {
        lemma_get_conv_seq(x, b, k);
        lemma_get_conv_seq(y, b, k);
        lemma_conv_upto_past_end(x, b, k, l);
        lemma_conv_upto_past_end(y, b, k, l);
        lemma_conv_upto_get_ext(x, y, b, k, l);
    }
    lemma_ring_seq_cong(conv_seq(x, b), conv_seq(y, b), n, q);
}

} // verus!
