//! Multiplication in `Z_q[X] / (X^n + 1)` does not depend on how its factors are represented:
//! reducing a factor by the polynomial modulus first, or taking the factors in the other order,
//! gives the same product.
use vstd::arithmetic::div_mod::*;
use vstd::arithmetic::mul::*;
use vstd::prelude::*;

use crate::primitives::poly::algebra::{
    cong, conv, conv_seq, conv_upto, fold_upto, get, lemma_conv_cong, lemma_conv_outside,
    lemma_conv_split_left, lemma_conv_upto_add_left, lemma_conv_upto_past_end, lemma_conv_upto_sum,
    lemma_fold_short, lemma_fold_shift, lemma_fold_sub, lemma_fold_zero_tail, lemma_get_conv_seq,
    lemma_get_padd, lemma_get_shift, lemma_ring_add_cong, lemma_ring_seq_cong, lemma_ring_shift_cong,
    padd, psub, ring_mul, ring_seq, shift, span,
};
use crate::primitives::sum::{lemma_sum_ext, lemma_sum_reverse, sum};

verus! {

/// The coefficients of `-w`.
pub open spec fn pneg(w: Seq<int>) -> Seq<int> {
    Seq::new(w.len(), |i: int| -w[i])
}

/// Folds of sequences that agree from `k` on agree.
proof fn lemma_fold_agree(p: Seq<int>, p2: Seq<int>, n: int, k: int, hi: int)
    requires
        forall|i: int| i >= k ==> #[trigger] get(p, i) == get(p2, i),
    ensures
        fold_upto(p, n, k, hi) == fold_upto(p2, n, k, hi),
    decreases span(k, hi),
{
    if n > 0 && k < hi {
        lemma_fold_agree(p, p2, n, k + n, hi);
        assert(get(p, k) == get(p2, k));
    }
}

/// Multiplying by `X^n` negates in the ring, since `X^n = -1`.
proof fn lemma_ring_shift_n(w: Seq<int>, n: nat, q: int)
    requires
        n > 0,
        q > 0,
    ensures
        ring_seq(shift(w, n), n, q) == ring_seq(pneg(w), n, q),
{
    let l = w.len() as int;
    assert forall|k: int| 0 <= k < n implies #[trigger] ring_seq(shift(w, n), n, q)[k] == ring_seq(pneg(w), n, q)[k] by {
        lemma_fold_shift(w, n, n as int, k, l + n);
        assert(fold_upto(w, n as int, k - n, l) == get(w, k - n) - fold_upto(w, n as int, k, l));
        let empty = Seq::<int>::empty();
        assert forall|i: int| #[trigger] get(pneg(w), i) == get(empty, i) - get(w, i) by {}
        lemma_fold_sub(pneg(w), empty, w, n as int, k, l);
        lemma_fold_zero_tail(empty, n as int, k, l);
    }
    assert(ring_seq(shift(w, n), n, q) =~= ring_seq(pneg(w), n, q));
}

/// Terms past `X^k` of the left factor do not reach `X^k`.
proof fn lemma_conv_upto_trunc(a: Seq<int>, b: Seq<int>, k: int, len: nat)
    requires
        k >= 0,
        len >= k + 1,
    ensures
        conv_upto(a, b, k, len) == conv_upto(a, b, k, (k + 1) as nat),
    decreases len,
{
    if len > k + 1 {
        lemma_conv_upto_trunc(a, b, k, (len - 1) as nat);
        assert(get(b, k - (len - 1)) == 0);
    }
}

/// The product of two coefficient sequences is commutative.
pub proof fn lemma_conv_comm(a: Seq<int>, b: Seq<int>, k: int)
    ensures
        conv(a, b, k) == conv(b, a, k),
{
    if k < 0 {
        lemma_conv_outside(a, b, k, a.len());
        lemma_conv_outside(b, a, k, b.len());
    } else {
        let m = (k + 1) as nat;
        let la = if a.len() < m { m } else { a.len() };
        let lb = if b.len() < m { m } else { b.len() };
        lemma_conv_upto_past_end(a, b, k, la);
        lemma_conv_upto_trunc(a, b, k, la);
        lemma_conv_upto_sum(a, b, k, m);
        lemma_conv_upto_past_end(b, a, k, lb);
        lemma_conv_upto_trunc(b, a, k, lb);
        lemma_conv_upto_sum(b, a, k, m);
        let f = |i: int| get(a, i) * get(b, k - i);
        let g = |i: int| get(b, i) * get(a, k - i);
        lemma_sum_reverse(f, m);
        assert forall|i: int| 0 <= i < m implies #[trigger] f(m - 1 - i) == g(i) by {
            lemma_mul_is_commutative(get(a, k - i), get(b, i));
        }
        lemma_sum_ext(|i: int| f(m - 1 - i), g, m);
    }
}

/// Multiplication in the ring is commutative, for factors of any length.
pub proof fn lemma_ring_mul_comm_any(x: Seq<int>, y: Seq<int>, n: nat, q: int)
    ensures
        ring_mul(x, y, n, q) == ring_mul(y, x, n, q),
{
    assert forall|k: int| 0 <= k < conv_seq(x, y).len() implies #[trigger] conv_seq(x, y)[k] == conv_seq(y, x)[k] by {
        lemma_conv_comm(x, y, k);
    }
    assert(conv_seq(x, y) =~= conv_seq(y, x));
}

/// Ring products of factors that agree modulo `q` agree.
pub proof fn lemma_ring_mul_cong_any(x: Seq<int>, x2: Seq<int>, y: Seq<int>, y2: Seq<int>, n: nat, q: int)
    requires
        n > 0,
        q > 0,
        cong(x, x2, q),
        cong(y, y2, q),
    ensures
        ring_mul(x, y, n, q) == ring_mul(x2, y2, n, q),
{
    assert forall|k: int| #[trigger] get(conv_seq(x, y), k) % q == #[trigger] get(conv_seq(x2, y2), k) % q by {
        lemma_get_conv_seq(x, y, k);
        lemma_get_conv_seq(x2, y2, k);
        lemma_conv_cong(x, x2, y, y2, q, k);
    }
    lemma_ring_seq_cong(conv_seq(x, y), conv_seq(x2, y2), n, q);
}

/// Sequences that are equal at every index have the same image in the ring.
proof fn lemma_ring_seq_get_eq(p: Seq<int>, r: Seq<int>, n: nat, q: int)
    requires
        n > 0,
        q > 0,
        forall|i: int| #[trigger] get(p, i) == get(r, i),
    ensures
        ring_seq(p, n, q) == ring_seq(r, n, q),
{
    assert forall|i: int| #[trigger] get(p, i) % q == #[trigger] get(r, i) % q by {
        assert(get(p, i) == get(r, i));
    }
    lemma_ring_seq_cong(p, r, n, q);
}

/// Reducing the left factor by `X^n + 1` first does not change the ring product.
pub proof fn lemma_ring_mul_reduce_left(x: Seq<int>, y: Seq<int>, n: nat, q: int)
    requires
        n > 0,
        q > 0,
    ensures
        ring_mul(x, y, n, q) == ring_mul(ring_seq(x, n, q), y, n, q),
    decreases x.len(),
{
    let rx = ring_seq(x, n, q);
    let l = x.len() as int;
    assert(cong(y, y, q));
    if x.len() <= n {
        assert(cong(x, rx, q)) by {
            assert forall|i: int| #[trigger] get(x, i) % q == #[trigger] get(rx, i) % q by {
                if 0 <= i < n {
                    lemma_fold_short(x, n as int, i);
                    lemma_mod_twice(get(x, i), q);
                }
            }
        }
        lemma_ring_mul_cong_any(x, rx, y, y, n, q);
    } else {
        let lo = x.take(n as int);
        let hi = x.skip(n as int);
        lemma_ring_mul_reduce_left(hi, y, n, q);
        let rhi = ring_seq(hi, n, q);
        let cl = conv_seq(lo, y);
        let ch = conv_seq(hi, y);
        let crh = conv_seq(rhi, y);
        let cx = conv_seq(x, y);
        // x y = lo y + X^n (hi y)
        assert forall|i: int| #[trigger] get(x, i) == get(lo, i) + get(hi, i - n) by {}
        assert forall|k: int| #[trigger] get(cx, k) == get(cl, k) + get(shift(ch, n), k) by {
            lemma_conv_split_left(x, lo, hi, y, n, k);
            lemma_get_conv_seq(x, y, k);
            lemma_get_conv_seq(lo, y, k);
            lemma_get_conv_seq(hi, y, k - n);
            lemma_get_shift(ch, n, k);
        }
        // X^n (hi y) = -(reduced hi) y in the ring
        lemma_ring_shift_cong(ch, crh, n, n, q);
        lemma_ring_shift_n(crh, n, q);
        let s = padd(cl, pneg(crh));
        assert forall|i: int| #[trigger] get(s, i) == get(cl, i) + get(pneg(crh), i) by {
            lemma_get_padd(cl, pneg(crh), i);
        }
        lemma_ring_add_cong(cx, cl, shift(ch, n), s, cl, pneg(crh), n, q);
        // the reduced left factor is lo - (reduced hi), modulo q
        let d = Seq::new(n, |i: int| get(lo, i) - get(rhi, i));
        assert(cong(rx, d, q)) by {
            assert forall|i: int| #[trigger] get(rx, i) % q == #[trigger] get(d, i) % q by {
                if 0 <= i < n {
                    assert(fold_upto(x, n as int, i, l) == get(x, i) - fold_upto(x, n as int, i + n, l));
                    assert forall|j: int| j >= i + n implies #[trigger] get(x, j) == get(shift(hi, n), j) by {
                        lemma_get_shift(hi, n, j);
                    }
                    lemma_fold_agree(x, shift(hi, n), n as int, i + n, l);
                    lemma_fold_shift(hi, n, n as int, i + n, l);
                    let fh = fold_upto(hi, n as int, i, l - n);
                    assert(get(rhi, i) == fh % q);
                    assert(get(lo, i) == get(x, i));
                    assert(get(rx, i) == fold_upto(x, n as int, i, l) % q);
                    lemma_mod_twice(fold_upto(x, n as int, i, l), q);
                    assert(fold_upto(x, n as int, i, l) == get(x, i) - fh);
                    lemma_sub_mod_noop(get(x, i), fh, q);
                    lemma_mod_twice(get(x, i), q);
                    lemma_sub_mod_noop(get(lo, i), fh % q, q);
                    lemma_mod_twice(fh, q);
                }
            }
        }
        lemma_ring_mul_cong_any(rx, d, y, y, n, q);
        // d y = lo y - (reduced hi) y
        assert forall|i: int| #[trigger] get(lo, i) == get(d, i) + get(rhi, i) by {}
        assert forall|k: int| #[trigger] get(conv_seq(d, y), k) == get(psub(cl, crh), k) by {
            lemma_get_conv_seq(d, y, k);
            lemma_get_conv_seq(lo, y, k);
            lemma_get_conv_seq(rhi, y, k);
            lemma_conv_upto_add_left(lo, d, rhi, y, k, n);
            lemma_conv_upto_past_end(lo, y, k, n);
            lemma_conv_upto_past_end(d, y, k, n);
            lemma_conv_upto_past_end(rhi, y, k, n);
        }
        lemma_ring_seq_get_eq(conv_seq(d, y), psub(cl, crh), n, q);
        assert forall|i: int| #[trigger] get(s, i) == get(psub(cl, crh), i) by {}
        lemma_ring_seq_get_eq(s, psub(cl, crh), n, q);
    }
}

/// Reducing either factor by `X^n + 1` first does not change the ring product.
pub proof fn lemma_ring_mul_reduce(x: Seq<int>, y: Seq<int>, n: nat, q: int)
    requires
        n > 0,
        q > 0,
    ensures
        ring_mul(x, y, n, q) == ring_mul(ring_seq(x, n, q), ring_seq(y, n, q), n, q),
{
    lemma_ring_mul_reduce_left(x, y, n, q);
    lemma_ring_mul_comm_any(ring_seq(x, n, q), y, n, q);
    lemma_ring_mul_reduce_left(y, ring_seq(x, n, q), n, q);
    lemma_ring_mul_comm_any(ring_seq(y, n, q), ring_seq(x, n, q), n, q);
}

} // verus!
