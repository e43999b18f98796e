//! Divisibility of polynomials over `Z_q`, without reduction by `X^N + 1`: the algebra of the
//! integer product of coefficient sequences, read modulo `q`.
use vstd::arithmetic::div_mod::*;
use vstd::prelude::*;

use crate::primitives::poly::algebra::{
    cong, conv, conv_seq, conv_upto, get, lemma_conv_cong, lemma_conv_outside, lemma_conv_upto_add_left, lemma_conv_upto_past_end,
    lemma_fold_short, lemma_get_conv_seq, lemma_get_padd, lemma_get_psub, lemma_negacyclic_sum, negacyclic, negacyclic_term, padd, psub,
};
use crate::primitives::field::{is_prime, lemma_prime_product};
use crate::primitives::poly::algebra::{dense, fold_upto, lemma_ring_seq_cong, ring_mul, ring_seq, span};
use crate::primitives::poly::conf::PolyConf;
use crate::primitives::poly::reduce::{lemma_conv_comm, lemma_ring_mul_cong_any, lemma_ring_mul_reduce};
use crate::primitives::poly::Poly;
use crate::primitives::poly::ring::{lemma_nega_assoc, nega, nega_seq, nega_terms};
use crate::primitives::sum::lemma_sum_ext;

verus! {

/// `d` divides `p` over `Z_q`: `p = u d` modulo `q`, coefficient by coefficient, for some `u`.
pub open spec fn divides_poly(d: Seq<int>, p: Seq<int>, q: int) -> bool {
    exists|u: Seq<int>| cong(p, #[trigger] conv_seq(u, d), q)
}

/// The product is additive in its left factor.
pub proof fn lemma_conv_add_left(a: Seq<int>, a1: Seq<int>, a2: Seq<int>, b: Seq<int>, k: int)
    requires
        forall|i: int| #[trigger] get(a, i) == get(a1, i) + get(a2, i),
    ensures
        conv(a, b, k) == conv(a1, b, k) + conv(a2, b, k),
{
    let l1 = if a.len() < a1.len() { a1.len() } else { a.len() };
    let len = if l1 < a2.len() { a2.len() } else { l1 };
    lemma_conv_upto_add_left(a, a1, a2, b, k, len);
    lemma_conv_upto_past_end(a, b, k, len);
    lemma_conv_upto_past_end(a1, b, k, len);
    lemma_conv_upto_past_end(a2, b, k, len);
}

/// The product is additive in its right factor.
pub proof fn lemma_conv_add_right(a: Seq<int>, b: Seq<int>, b1: Seq<int>, b2: Seq<int>, k: int)
    requires
        forall|i: int| #[trigger] get(b, i) == get(b1, i) + get(b2, i),
    ensures
        conv(a, b, k) == conv(a, b1, k) + conv(a, b2, k),
{
    lemma_conv_comm(a, b, k);
    lemma_conv_comm(a, b1, k);
    lemma_conv_comm(a, b2, k);
    lemma_conv_add_left(b, b1, b2, a, k);
}

/// Sequences that agree everywhere give the same negacyclic coefficients.
proof fn lemma_nega_get_ext(x: Seq<int>, y: Seq<int>, c: Seq<int>, n: nat, k: int)
    requires
        forall|i: int| #[trigger] get(x, i) == get(y, i),
    ensures
        nega(x, c, n, k) == nega(y, c, n, k),
        nega(c, x, n, k) == nega(c, y, n, k),
{
    assert forall|i: int| 0 <= i < n implies #[trigger] nega_terms(x, c, n, k)(i) == nega_terms(y, c, n, k)(i) by {
        assert(get(x, i) == get(y, i));
    }
    lemma_sum_ext(nega_terms(x, c, n, k), nega_terms(y, c, n, k), n);
    assert forall|i: int| 0 <= i < n implies #[trigger] nega_terms(c, x, n, k)(i) == nega_terms(c, y, n, k)(i) by {
        assert(get(x, k - i) == get(y, k - i));
        assert(get(x, k + n - i) == get(y, k + n - i));
    }
    lemma_sum_ext(nega_terms(c, x, n, k), nega_terms(c, y, n, k), n);
}

/// Without wrapping, the integer product is the negacyclic one.
proof fn lemma_conv_nega(a: Seq<int>, b: Seq<int>, m: nat, k: int)
    requires
        a.len() + b.len() <= m,
        0 <= k < m,
    ensures
        conv(a, b, k) == nega(a, b, m, k),
{
    lemma_negacyclic_sum(a, b, m, k);
    assert(nega_terms(a, b, m, k) =~= (|i: int| negacyclic_term(a, b, m, k, i)));
    lemma_fold_short(conv_seq(a, b), m as int, k);
    lemma_get_conv_seq(a, b, k);
}

/// The integer product agrees with the negacyclic one at every index below `m`, when nothing
/// wraps.
proof fn lemma_conv_seq_nega(a: Seq<int>, b: Seq<int>, m: nat)
    requires
        a.len() + b.len() <= m,
    ensures
        forall|j: int| #[trigger] get(conv_seq(a, b), j) == get(nega_seq(a, b, m), j),
{
    assert forall|j: int| #[trigger] get(conv_seq(a, b), j) == get(nega_seq(a, b, m), j) by {
        lemma_get_conv_seq(a, b, j);
        if 0 <= j < m {
            lemma_conv_nega(a, b, m, j);
        } else {
            lemma_conv_outside(a, b, j, a.len());
        }
    }
}

/// The integer product is associative.
pub proof fn lemma_conv_assoc(a: Seq<int>, b: Seq<int>, c: Seq<int>, k: int)
    ensures
        conv(conv_seq(a, b), c, k) == conv(a, conv_seq(b, c), k),
{
    let m = a.len() + b.len() + c.len() + 1;
    let ab = conv_seq(a, b);
    let bc = conv_seq(b, c);
    if 0 <= k < m {
        lemma_conv_nega(ab, c, m, k);
        lemma_conv_nega(a, bc, m, k);
        lemma_conv_seq_nega(a, b, m);
        lemma_conv_seq_nega(b, c, m);
        lemma_nega_get_ext(ab, nega_seq(a, b, m), c, m, k);
        lemma_nega_get_ext(bc, nega_seq(b, c, m), a, m, k);
        lemma_nega_assoc(a, b, c, m, k);
    } else {
        lemma_conv_outside(ab, c, k, ab.len());
        lemma_conv_outside(a, bc, k, a.len());
    }
}

/// One step of the Euclidean algorithm keeps a combination: if `m = u1 rp + u2 rc` and
/// `rp = quo rc + rem`, then `m = (u1 quo + u2) rc + u1 rem`, all modulo `q`.
pub proof fn lemma_combination_step(
    m: Seq<int>,
    u1: Seq<int>,
    u2: Seq<int>,
    rp: Seq<int>,
    rc: Seq<int>,
    quo: Seq<int>,
    rs: Seq<int>,
    rem: Seq<int>,
    q: int,
)
    requires
        q > 0,
        cong(m, padd(conv_seq(u1, rp), conv_seq(u2, rc)), q),
        cong(rp, padd(conv_seq(quo, rc), rs), q),
        cong(rem, rs, q),
    ensures
        cong(m, padd(conv_seq(padd(conv_seq(u1, quo), u2), rc), conv_seq(u1, rem)), q),
{
    let w = padd(conv_seq(u1, quo), u2);
    let target = padd(conv_seq(w, rc), conv_seq(u1, rem));
    let qrc = padd(conv_seq(quo, rc), rs);
    assert forall|i: int| #[trigger] get(w, i) == get(conv_seq(u1, quo), i) + get(u2, i) by {
        lemma_get_padd(conv_seq(u1, quo), u2, i);
    }
    assert forall|i: int| #[trigger] get(qrc, i) == get(conv_seq(quo, rc), i) + get(rs, i) by {
        lemma_get_padd(conv_seq(quo, rc), rs, i);
    }
    assert forall|i: int| #[trigger] get(rem, i) % q == get(rs, i) % q by {}
    assert forall|i: int| #[trigger] get(u1, i) % q == get(u1, i) % q by {}
    assert forall|k: int| #[trigger] get(m, k) % q == get(target, k) % q by {
        lemma_get_padd(conv_seq(u1, rp), conv_seq(u2, rc), k);
        lemma_get_padd(conv_seq(w, rc), conv_seq(u1, rem), k);
        lemma_get_conv_seq(u1, rp, k);
        lemma_get_conv_seq(u2, rc, k);
        lemma_get_conv_seq(w, rc, k);
        lemma_get_conv_seq(u1, rem, k);
        // u1 rp = u1 (quo rc + rs) = (u1 quo) rc + u1 rs
        lemma_conv_cong(u1, u1, rp, qrc, q, k);
        lemma_conv_add_right(u1, qrc, conv_seq(quo, rc), rs, k);
        lemma_conv_assoc(u1, quo, rc, k);
        lemma_conv_cong(u1, u1, rs, rem, q, k);
        // (u1 quo + u2) rc = (u1 quo) rc + u2 rc
        lemma_conv_add_left(w, conv_seq(u1, quo), u2, rc, k);
        let x1 = conv(u1, rp, k);
        let x2 = conv(u2, rc, k);
        let y1 = conv(conv_seq(u1, quo), rc, k);
        let y2 = conv(u1, rs, k);
        let y3 = conv(u1, rem, k);
        assert(get(m, k) % q == (x1 + x2) % q);
        assert(x1 % q == (y1 + y2) % q);
        assert(y2 % q == y3 % q);
        lemma_add_mod_noop(x1, x2, q);
        lemma_add_mod_noop(y1 + y2, x2, q);
        lemma_add_mod_noop(y1 + x2, y2, q);
        lemma_add_mod_noop(y1 + x2, y3, q);
        assert(get(target, k) == (y1 + x2) + y3);
    }
}

/// The combinations at the start of the Euclidean algorithm on `x` and `y`: `x = 1 x + 0 y` and
/// `y = 0 x + 1 y`, where `y2` agrees with `y`.
pub proof fn lemma_combination_init(x: Seq<int>, y: Seq<int>, y2: Seq<int>, q: int)
    requires
        q > 0,
        forall|i: int| #[trigger] get(y2, i) == get(y, i),
    ensures
        cong(x, padd(conv_seq(seq![1int], x), conv_seq(Seq::<int>::empty(), y2)), q),
        cong(y, padd(conv_seq(Seq::<int>::empty(), x), conv_seq(seq![1int], y2)), q),
{
    let one = seq![1int];
    let zero = Seq::<int>::empty();
    assert forall|k: int| #[trigger] get(x, k) % q == get(padd(conv_seq(one, x), conv_seq(zero, y2)), k) % q by {
        lemma_get_padd(conv_seq(one, x), conv_seq(zero, y2), k);
        lemma_get_conv_seq(one, x, k);
        lemma_get_conv_seq(zero, y2, k);
        assert(conv_upto(one, x, k, 0) == 0);
        assert(get(one, 0) == 1);
        assert(conv_upto(one, x, k, 1) == get(x, k));
        assert(conv(one, x, k) == get(x, k));
        assert(conv(zero, y2, k) == 0);
    }
    assert forall|k: int| #[trigger] get(y, k) % q == get(padd(conv_seq(zero, x), conv_seq(one, y2)), k) % q by {
        lemma_get_padd(conv_seq(zero, x), conv_seq(one, y2), k);
        lemma_get_conv_seq(zero, x, k);
        lemma_get_conv_seq(one, y2, k);
        assert(conv_upto(one, y2, k, 0) == 0);
        assert(get(one, 0) == 1);
        assert(conv_upto(one, y2, k, 1) == get(y2, k));
        assert(conv(one, y2, k) == get(y2, k));
        assert(conv(zero, x, k) == 0);
        assert(get(y2, k) == get(y, k));
    }
}

/// A remainder of at most `N` coefficients, stored in canonical form, is congruent to the
/// sequence it represents.
pub proof fn lemma_remainder_cong<C: PolyConf>(rem: Poly<C>, rs: Seq<int>)
    requires
        rem.is_canonical(),
        rs.len() <= C::spec_max_poly_degree(),
        rem.ring() == ring_seq(rs, C::spec_max_poly_degree(), C::spec_modulus()),
    ensures
        cong(rem.ints(), rs, C::spec_modulus()),
{
    C::lemma_conf_valid();
    let n = C::spec_max_poly_degree();
    let q = C::spec_modulus();
    rem.lemma_canonical_ring();
    assert forall|k: int| #[trigger] get(rem.ints(), k) % q == get(rs, k) % q by {
        if 0 <= k < n {
            lemma_fold_short(rs, n as int, k);
            assert(rem.ring()[k] == dense(rem.ints(), n)[k]);
            if k < rem.coeffs@.len() {
                assert(rem.ints()[k] == rem.coeffs@[k] as int);
            }
            lemma_small_mod(get(rem.ints(), k) as nat, q as nat);
            lemma_mod_twice(get(rs, k), q);
        }
    }
}

/// A combination `p = u d + w 0` shows that `d` divides `p`.
pub proof fn lemma_combination_divides(p: Seq<int>, u: Seq<int>, w: Seq<int>, d: Seq<int>, q: int)
    requires
        cong(p, padd(conv_seq(u, d), conv_seq(w, Seq::<int>::empty())), q),
    ensures
        divides_poly(d, p, q),
{
    let zero = Seq::<int>::empty();
    assert forall|k: int| #[trigger] get(p, k) % q == get(conv_seq(u, d), k) % q by {
        lemma_get_padd(conv_seq(u, d), conv_seq(w, zero), k);
        lemma_get_conv_seq(w, zero, k);
        lemma_conv_outside(w, zero, k, w.len());
        assert(get(p, k) % q == get(padd(conv_seq(u, d), conv_seq(w, zero)), k) % q);
    }
    assert(cong(p, conv_seq(u, d), q));
}

/// A fold over indexes whose coefficients all vanish modulo `q` vanishes modulo `q`.
proof fn lemma_fold_vanishing(p: Seq<int>, n: int, k: int, hi: int, q: int)
    requires
        n > 0,
        q > 0,
        forall|i: int| i >= k ==> #[trigger] get(p, i) % q == 0,
    ensures
        fold_upto(p, n, k, hi) % q == 0,
    decreases span(k, hi),
{
    lemma_small_mod(0, q as nat);
    if k < hi {
        lemma_fold_vanishing(p, n, k + n, hi, q);
        let x = get(p, k);
        let y = fold_upto(p, n, k + n, hi);
        assert(x % q == 0);
        assert(fold_upto(p, n, k, hi) == x - y);
        lemma_sub_mod_noop(x, y, q);
        assert((x - y) % q == (0 - 0) % q);
    }
}

/// With every coefficient past `uu` vanishing modulo `q`, the product coefficient of index
/// `uu + dd`, where `dd` is the last index of `d`, is `u[uu] d[dd]` modulo `q`, summed over the
/// first `len` terms.
proof fn lemma_top_coeff_upto(u: Seq<int>, d: Seq<int>, uu: int, dd: int, q: int, len: nat)
    requires
        q > 0,
        uu >= 0,
        dd >= 0,
        d.len() == dd + 1,
        forall|i: int| i > uu ==> #[trigger] get(u, i) % q == 0,
    ensures
        conv_upto(u, d, uu + dd, len) % q == (if len > uu { get(u, uu) * get(d, dd) } else { 0 }) % q,
    decreases len,
{
    if len > 0 {
        let i = len - 1;
        lemma_top_coeff_upto(u, d, uu, dd, q, i as nat);
        let prev = conv_upto(u, d, uu + dd, i as nat);
        let term = get(u, i) * get(d, uu + dd - i);
        assert(conv_upto(u, d, uu + dd, len) == prev + term);
        lemma_small_mod(0, q as nat);
        if i < uu {
            assert(get(d, uu + dd - i) == 0);
            assert(term == 0);
        } else if i == uu {
            assert(prev % q == 0);
            lemma_add_mod_noop(prev, term, q);
            lemma_mod_twice(term, q);
        } else {
            assert(get(u, i) % q == 0);
            lemma_mul_mod_noop_left(get(u, i), get(d, uu + dd - i), q);
            lemma_small_mod(0, q as nat);
            assert(0 * get(d, uu + dd - i) == 0);
            lemma_add_mod_noop(prev, term, q);
            lemma_mod_twice(prev, q);
        }
    }
}

/// The last coefficient of `u` below `hi` that does not vanish modulo `q`, when there is one.
proof fn lemma_last_nonzero(u: Seq<int>, q: int, hi: int) -> (uu: int)
    requires
        exists|j: int| 0 <= j < hi && #[trigger] get(u, j) % q != 0,
    ensures
        0 <= uu < hi,
        get(u, uu) % q != 0,
        forall|i: int| uu < i < hi ==> #[trigger] get(u, i) % q == 0,
    decreases hi,
{
    if get(u, hi - 1) % q != 0 {
        hi - 1
    } else {
        let j = choose|j: int| 0 <= j < hi && #[trigger] get(u, j) % q != 0;
        assert(j < hi - 1);
        lemma_last_nonzero(u, q, hi - 1)
    }
}

/// The ring image of a sequence that vanishes everywhere is zero.
proof fn lemma_ring_seq_zero(p: Seq<int>, n: nat, q: int)
    requires
        n > 0,
        q > 0,
        forall|i: int| #[trigger] get(p, i) % q == 0,
    ensures
        forall|k: int| 0 <= k < n ==> #[trigger] ring_seq(p, n, q)[k] == 0,
{
    assert forall|k: int| 0 <= k < n implies #[trigger] ring_seq(p, n, q)[k] == 0 by {
        lemma_fold_vanishing(p, n as int, k, p.len() as int, q);
    }
}

/// `X^n + 1` is zero in the ring.
proof fn lemma_ring_seq_modulus(m: Seq<int>, n: nat, q: int)
    requires
        n > 0,
        q > 0,
        forall|i: int| #[trigger] get(m, i) == if i == 0 || i == n { 1int } else { 0int },
    ensures
        forall|k: int| 0 <= k < n ==> #[trigger] ring_seq(m, n, q)[k] == 0,
{
    assert forall|k: int| 0 <= k < n implies #[trigger] ring_seq(m, n, q)[k] == 0 by {
        let hi = m.len() as int;
        assert(get(m, n as int) == 1);
        assert forall|i: int| i >= k + 2 * n implies #[trigger] get(m, i) % q == 0 by {
            assert(get(m, i) == 0);
            lemma_small_mod(0, q as nat);
        }
        lemma_fold_vanishing(m, n as int, k + 2 * n, hi, q);
        let f2 = fold_upto(m, n as int, k + 2 * n, hi);
        assert(fold_upto(m, n as int, k + n, hi) == get(m, k + n) - f2);
        assert(fold_upto(m, n as int, k, hi) == get(m, k) - (get(m, k + n) - f2));
        assert(get(m, k) == get(m, k + n));
        lemma_mod_twice(f2, q);
        assert(fold_upto(m, n as int, k, hi) == f2);
    }
}

/// The product with `1` on the right is the sequence itself.
proof fn lemma_conv_one_right(u: Seq<int>, k: int)
    ensures
        conv(u, seq![1int], k) == get(u, k),
{
    let one = seq![1int];
    lemma_conv_comm(u, one, k);
    assert(conv_upto(one, u, k, 0) == 0);
    assert(get(one, 0) == 1);
    assert(conv_upto(one, u, k, 1) == conv_upto(one, u, k, 0) + get(one, 0) * get(u, k - 0));
    assert(conv(one, u, k) == get(u, k));
}

/// Modulo a prime, a common divisor `d` of `X^n + 1` and `a` over `Z_q` that is zero or has a
/// positive degree rules out an inverse of `a` in the ring: `a b = 1` would make `d` a unit of
/// the ring, and the cofactor `u` of `X^n + 1 = u d` then both zero in the ring and of degree
/// below `n`.
pub proof fn lemma_no_inverse(m: Seq<int>, a: Seq<int>, d: Seq<int>, b: Seq<int>, n: nat, q: int)
    requires
        is_prime(q),
        n > 0,
        forall|i: int| #[trigger] get(m, i) == if i == 0 || i == n { 1int } else { 0int },
        forall|i: int| 0 <= i < d.len() ==> 0 <= #[trigger] d[i] < q,
        d.len() == 0 || (d.len() >= 2 && d.last() != 0),
        divides_poly(d, m, q),
        divides_poly(d, a, q),
    ensures
        ring_mul(a, b, n, q) != ring_seq(seq![1int], n, q),
{
    if ring_mul(a, b, n, q) == ring_seq(seq![1int], n, q) {
        let u = choose|u: Seq<int>| cong(m, #[trigger] conv_seq(u, d), q);
        let v = choose|v: Seq<int>| cong(a, #[trigger] conv_seq(v, d), q);
        let e = conv_seq(v, b);
        let one = seq![1int];
        let empty = Seq::<int>::empty();
        lemma_small_mod(0, q as nat);
        lemma_small_mod(1, q as nat);
        // d e = 1 in the ring
        assert forall|i: int| #[trigger] get(b, i) % q == get(b, i) % q by {}
        lemma_ring_mul_cong_any(a, conv_seq(v, d), b, b, n, q);
        assert forall|i: int| #[trigger] get(conv_seq(v, d), i) % q == get(conv_seq(d, v), i) % q by {
            lemma_get_conv_seq(v, d, i);
            lemma_get_conv_seq(d, v, i);
            lemma_conv_comm(v, d, i);
        }
        assert forall|k: int| #[trigger] get(conv_seq(conv_seq(v, d), b), k) % q == get(conv_seq(d, e), k) % q by {
            lemma_get_conv_seq(conv_seq(v, d), b, k);
            lemma_get_conv_seq(d, e, k);
            lemma_conv_cong(conv_seq(v, d), conv_seq(d, v), b, b, q, k);
            lemma_conv_assoc(d, v, b, k);
        }
        lemma_ring_seq_cong(conv_seq(conv_seq(v, d), b), conv_seq(d, e), n, q);
        assert(ring_mul(d, e, n, q) == ring_seq(one, n, q));
        assert(ring_seq(one, n, q)[0] == 1) by {
            assert(fold_upto(one, n as int, n as int, 1) == 0);
            assert(fold_upto(one, n as int, 0, 1) == 1);
        }
        if d.len() == 0 {
            assert forall|k: int| #[trigger] get(conv_seq(d, e), k) % q == 0 by {
                lemma_get_conv_seq(d, e, k);
            }
            lemma_ring_seq_zero(conv_seq(d, e), n, q);
            assert(ring_mul(d, e, n, q)[0] == 0);
        } else {
            let dd = d.len() - 1;
            // u d = X^n + 1 is zero in the ring
            lemma_ring_seq_modulus(m, n, q);
            lemma_ring_seq_cong(m, conv_seq(u, d), n, q);
            let z = ring_seq(conv_seq(u, d), n, q);
            assert forall|i: int| #[trigger] get(z, i) % q == get(empty, i) % q by {
                if 0 <= i < n {
                    assert(z[i] == 0);
                }
            }
            let re = ring_seq(e, n, q);
            assert forall|i: int| #[trigger] get(re, i) % q == get(re, i) % q by {}
            lemma_ring_mul_reduce(conv_seq(u, d), e, n, q);
            lemma_ring_mul_cong_any(z, empty, re, re, n, q);
            assert forall|k: int| #[trigger] get(conv_seq(empty, re), k) % q == 0 by {
                lemma_get_conv_seq(empty, re, k);
            }
            lemma_ring_seq_zero(conv_seq(empty, re), n, q);
            // so u = u (d e) = (u d) e is zero in the ring
            lemma_ring_mul_reduce(u, conv_seq(d, e), n, q);
            lemma_ring_mul_reduce(u, one, n, q);
            assert forall|k: int| #[trigger] get(conv_seq(u, one), k) % q == get(u, k) % q by {
                lemma_get_conv_seq(u, one, k);
                lemma_conv_one_right(u, k);
            }
            lemma_ring_seq_cong(conv_seq(u, one), u, n, q);
            assert forall|k: int| #[trigger] get(conv_seq(u, conv_seq(d, e)), k) % q == get(conv_seq(conv_seq(u, d), e), k) % q by {
                lemma_get_conv_seq(u, conv_seq(d, e), k);
                lemma_get_conv_seq(conv_seq(u, d), e, k);
                lemma_conv_assoc(u, d, e, k);
            }
            lemma_ring_seq_cong(conv_seq(u, conv_seq(d, e)), conv_seq(conv_seq(u, d), e), n, q);
            assert forall|k: int| 0 <= k < n implies #[trigger] ring_seq(u, n, q)[k] == 0 by {
                assert(ring_mul(conv_seq(u, d), e, n, q)[k] == 0);
            }
            // some coefficient of u survives modulo q, since u d = X^n + 1 has constant term 1
            if forall|j: int| 0 <= j < u.len() ==> #[trigger] get(u, j) % q == 0 {
                assert forall|i: int| #[trigger] get(u, i) % q == get(empty, i) % q by {}
                assert forall|i: int| #[trigger] get(d, i) % q == get(d, i) % q by {}
                lemma_conv_cong(u, empty, d, d, q, 0);
                lemma_get_conv_seq(u, d, 0);
                assert(get(m, 0) % q == get(conv_seq(u, d), 0) % q);
                assert(false);
            }
            let j = choose|j: int| !(0 <= j < u.len() ==> #[trigger] get(u, j) % q == 0);
            assert(0 <= j < u.len() && get(u, j) % q != 0);
            let uu = lemma_last_nonzero(u, q, u.len() as int);
            assert forall|i: int| i > uu implies #[trigger] get(u, i) % q == 0 by {
                if i < u.len() {
                    assert(uu < i < u.len());
                }
            }
            // its top coefficient times that of d does not vanish, so the product reaches X^n
            lemma_top_coeff_upto(u, d, uu, dd, q, u.len());
            lemma_small_mod(d[dd] as nat, q as nat);
            assert(get(d, dd) == d.last());
            lemma_prime_product(q, get(u, uu), get(d, dd));
            lemma_get_conv_seq(u, d, uu + dd);
            assert(get(m, uu + dd) % q == get(conv_seq(u, d), uu + dd) % q);
            assert(get(m, uu + dd) != 0);
            assert(uu + dd == n);
            // below X^n, u folds to itself, so its top coefficient is not zero in the ring
            assert forall|i: int| i >= uu + n implies #[trigger] get(u, i) % q == 0 by {}
            lemma_fold_vanishing(u, n as int, uu + n, u.len() as int, q);
            let f = fold_upto(u, n as int, uu + n, u.len() as int);
            assert(fold_upto(u, n as int, uu, u.len() as int) == get(u, uu) - f);
            lemma_sub_mod_noop(get(u, uu), f, q);
            lemma_mod_twice(get(u, uu), q);
            lemma_mod_bound(get(u, uu), q);
            lemma_small_mod((get(u, uu) % q) as nat, q as nat);
            assert(ring_seq(u, n, q)[uu] == 0);
        }
    }
}

/// Integers that agree modulo `q` differ by a multiple of `q`.
proof fn lemma_cong_multiple(x: int, y: int, q: int) -> (k: int)
    requires
        q > 0,
        x % q == y % q,
    ensures
        x - y == q * k,
{
    lemma_fundamental_div_mod(x, q);
    lemma_fundamental_div_mod(y, q);
    vstd::arithmetic::mul::lemma_mul_is_distributive_sub(q, x / q, y / q);
    x / q - y / q
}

/// The integer congruences behind [`lemma_linear_step`].
proof fn lemma_step_ints(rem: int, rs: int, rp: int, c: int, x1: int, y1: int, q1: int, q2: int, q: int)
    requires
        q > 0,
        rem % q == rs % q,
        rp % q == (c + rs) % q,
        rp % q == (x1 + y1) % q,
        c % q == (q1 + q2) % q,
    ensures
        rem % q == ((x1 - q1) + (y1 - q2)) % q,
{
    let k1 = lemma_cong_multiple(rem, rs, q);
    let k2 = lemma_cong_multiple(rp, c + rs, q);
    let k3 = lemma_cong_multiple(rp, x1 + y1, q);
    let k4 = lemma_cong_multiple(c, q1 + q2, q);
    let t = (x1 - q1) + (y1 - q2);
    assert(t == q * (-k1 + k2 - k3 + k4) + rem) by (nonlinear_arith)
        requires
            rem - rs == q * k1,
            rp - (c + rs) == q * k2,
            rp - (x1 + y1) == q * k3,
            c - (q1 + q2) == q * k4,
            t == (x1 - q1) + (y1 - q2),
    ;
    lemma_mod_multiples_vanish(-k1 + k2 - k3 + k4, rem, q);
}

/// One step of the Euclidean algorithm keeps the remainders combinations of the inputs: if
/// `rp = x1 a + y1 b`, `rc = x2 a + y2 b` and `rp = quo rc + rem`, then
/// `rem = (x1 - quo x2) a + (y1 - quo y2) b`, all modulo `q`.
pub proof fn lemma_linear_step(
    a: Seq<int>,
    b: Seq<int>,
    rp: Seq<int>,
    rc: Seq<int>,
    x1: Seq<int>,
    y1: Seq<int>,
    x2: Seq<int>,
    y2: Seq<int>,
    quo: Seq<int>,
    rs: Seq<int>,
    rem: Seq<int>,
    q: int,
)
    requires
        q > 0,
        cong(rp, padd(conv_seq(x1, a), conv_seq(y1, b)), q),
        cong(rc, padd(conv_seq(x2, a), conv_seq(y2, b)), q),
        cong(rp, padd(conv_seq(quo, rc), rs), q),
        cong(rem, rs, q),
    ensures
        cong(rem, padd(conv_seq(psub(x1, conv_seq(quo, x2)), a), conv_seq(psub(y1, conv_seq(quo, y2)), b)), q),
{
    let l2 = padd(conv_seq(x2, a), conv_seq(y2, b));
    let qx = conv_seq(quo, x2);
    let qy = conv_seq(quo, y2);
    let x3 = psub(x1, qx);
    let y3 = psub(y1, qy);
    assert forall|i: int| #[trigger] get(l2, i) == get(conv_seq(x2, a), i) + get(conv_seq(y2, b), i) by {
        lemma_get_padd(conv_seq(x2, a), conv_seq(y2, b), i);
    }
    assert forall|i: int| #[trigger] get(x1, i) == get(x3, i) + get(qx, i) by {
        lemma_get_psub(x1, qx, i);
    }
    assert forall|i: int| #[trigger] get(y1, i) == get(y3, i) + get(qy, i) by {
        lemma_get_psub(y1, qy, i);
    }
    assert forall|i: int| #[trigger] get(quo, i) % q == get(quo, i) % q by {}
    assert forall|k: int|
        #[trigger] get(rem, k) % q == get(padd(conv_seq(x3, a), conv_seq(y3, b)), k) % q by {
        lemma_get_padd(conv_seq(x3, a), conv_seq(y3, b), k);
        lemma_get_padd(conv_seq(x1, a), conv_seq(y1, b), k);
        lemma_get_padd(conv_seq(quo, rc), rs, k);
        lemma_get_conv_seq(x3, a, k);
        lemma_get_conv_seq(y3, b, k);
        lemma_get_conv_seq(x1, a, k);
        lemma_get_conv_seq(y1, b, k);
        lemma_get_conv_seq(quo, rc, k);
        // quo rc = quo (x2 a + y2 b) = (quo x2) a + (quo y2) b
        lemma_conv_cong(quo, quo, rc, l2, q, k);
        lemma_conv_add_right(quo, l2, conv_seq(x2, a), conv_seq(y2, b), k);
        lemma_conv_assoc(quo, x2, a, k);
        lemma_conv_assoc(quo, y2, b, k);
        // x1 a = x3 a + (quo x2) a, and likewise for b
        lemma_conv_add_left(x1, x3, qx, a, k);
        lemma_conv_add_left(y1, y3, qy, b, k);
        lemma_step_ints(
            get(rem, k),
            get(rs, k),
            get(rp, k),
            conv(quo, rc, k),
            conv(x1, a, k),
            conv(y1, b, k),
            conv(qx, a, k),
            conv(qy, b, k),
            q,
        );
    }
}

/// A common divisor `c` of `a` and `b` divides every combination `d = x a + y b`, modulo `q`.
pub proof fn lemma_common_divisor(c: Seq<int>, a: Seq<int>, b: Seq<int>, d: Seq<int>, x: Seq<int>, y: Seq<int>, q: int)
    requires
        q > 0,
        cong(d, padd(conv_seq(x, a), conv_seq(y, b)), q),
        divides_poly(c, a, q),
        divides_poly(c, b, q),
    ensures
        divides_poly(c, d, q),
{
    let u = choose|u: Seq<int>| cong(a, #[trigger] conv_seq(u, c), q);
    let v = choose|v: Seq<int>| cong(b, #[trigger] conv_seq(v, c), q);
    let w = padd(conv_seq(x, u), conv_seq(y, v));
    assert forall|i: int| #[trigger] get(w, i) == get(conv_seq(x, u), i) + get(conv_seq(y, v), i) by {
        lemma_get_padd(conv_seq(x, u), conv_seq(y, v), i);
    }
    assert forall|i: int| #[trigger] get(x, i) % q == get(x, i) % q by {}
    assert forall|i: int| #[trigger] get(y, i) % q == get(y, i) % q by {}
    assert forall|k: int| #[trigger] get(d, k) % q == get(conv_seq(w, c), k) % q by {
        lemma_get_padd(conv_seq(x, a), conv_seq(y, b), k);
        lemma_get_conv_seq(x, a, k);
        lemma_get_conv_seq(y, b, k);
        lemma_get_conv_seq(w, c, k);
        lemma_conv_add_left(w, conv_seq(x, u), conv_seq(y, v), c, k);
        lemma_conv_assoc(x, u, c, k);
        lemma_conv_assoc(y, v, c, k);
        lemma_conv_cong(x, x, a, conv_seq(u, c), q, k);
        lemma_conv_cong(y, y, b, conv_seq(v, c), q, k);
        let xa = conv(x, a, k);
        let yb = conv(y, b, k);
        let xu = conv(x, conv_seq(u, c), k);
        let yv = conv(y, conv_seq(v, c), k);
        lemma_add_mod_noop(xa, yb, q);
        lemma_add_mod_noop(xu, yv, q);
        assert((xa + yb) % q == (xu + yv) % q);
    }
    assert(cong(d, conv_seq(w, c), q));
}

} // verus!
