//! Bezout's identity for the extended Euclidean algorithm in `Z_q[X] / (X^N + 1)`.
use vstd::arithmetic::div_mod::*;
use vstd::prelude::*;

use crate::primitives::poly::algebra::{cong, conv_seq, get, lemma_get_padd, lemma_ring_add, lemma_ring_seq_cong, padd, ring_mul, ring_seq};
use crate::primitives::poly::conf::PolyConf;
use crate::primitives::poly::division::is_division;
use crate::primitives::poly::inv::ring_times;
use crate::primitives::poly::reduce::{lemma_ring_mul_cong_any, lemma_ring_mul_reduce};
use crate::primitives::poly::ring::{
    lemma_nega_add_left, lemma_nega_assoc, lemma_nega_comm, lemma_nega_cong, lemma_nega_scale_left,
    lemma_ring_mul_nega, nega, nega_seq, short,
};
use crate::primitives::poly::Poly;

verus! {

/// `x a + y b = d` in the ring `Z_q[X] / (X^N + 1)`.
pub open spec fn bezout<C: PolyConf>(x: Poly<C>, y: Poly<C>, a: Poly<C>, b: Poly<C>, d: Poly<C>) -> bool {
    forall|k: int|
        0 <= k < C::spec_max_poly_degree() ==> #[trigger] d.ring()[k] == (ring_times(x, a)[k] + ring_times(y, b)[k])
            % C::spec_modulus()
}

/// The ring product with a canonical left factor, through the negacyclic sum against the
/// reduced right factor.
proof fn lemma_times_nega<C: PolyConf>(x: Poly<C>, a: Poly<C>, k: int)
    requires
        x.is_canonical(),
        0 <= k < C::spec_max_poly_degree(),
    ensures
        ring_times(x, a)[k] == nega(x.ints(), a.ring(), C::spec_max_poly_degree(), k) % C::spec_modulus(),
{
    C::lemma_conf_valid();
    let n = C::spec_max_poly_degree();
    let q = C::spec_modulus();
    lemma_ring_mul_reduce(x.ints(), a.ints(), n, q);
    x.lemma_canonical_ring();
    assert(cong(ring_seq(x.ints(), n, q), x.ints(), q)) by {
        assert forall|i: int| #[trigger] get(ring_seq(x.ints(), n, q), i) % q == #[trigger] get(x.ints(), i) % q by {
            if 0 <= i < n {
                assert(x.ring()[i] == x.dense()[i]);
            }
        }
    }
    assert(cong(a.ring(), a.ring(), q));
    lemma_ring_mul_cong_any(ring_seq(x.ints(), n, q), x.ints(), a.ring(), a.ring(), n, q);
    lemma_ring_mul_nega(x.ints(), a.ring(), n, q, k);
}

/// The remainder of a division, in the ring: `rem = num - quo den`.
pub proof fn lemma_division_ring<C: PolyConf>(num: Poly<C>, den: Poly<C>, quo: Poly<C>, rem: Poly<C>, qs: Seq<int>, rs: Seq<int>)
    requires
        quo.is_canonical(),
        is_division(num.ints(), den.ints(), qs, rs, C::spec_modulus()),
        quo.ring() == ring_seq(qs, C::spec_max_poly_degree(), C::spec_modulus()),
        rem.ring() == ring_seq(rs, C::spec_max_poly_degree(), C::spec_modulus()),
    ensures
        forall|k: int|
            0 <= k < C::spec_max_poly_degree() ==> #[trigger] rem.ring()[k] == (num.ring()[k] - ring_times(quo, den)[k])
                % C::spec_modulus(),
{
    C::lemma_conf_valid();
    let n = C::spec_max_poly_degree();
    let q = C::spec_modulus();
    let c = conv_seq(qs, den.ints());
    let s = padd(c, rs);
    assert forall|k: int| #[trigger] get(num.ints(), k) % q == #[trigger] get(s, k) % q by {
        lemma_get_padd(c, rs, k);
    }
    lemma_ring_seq_cong(num.ints(), s, n, q);
    assert forall|k: int| #[trigger] get(s, k) == get(c, k) + get(rs, k) by {
        lemma_get_padd(c, rs, k);
    }
    lemma_ring_add(s, c, rs, n, q);
    // the quotient's representation does not matter
    lemma_ring_mul_reduce(qs, den.ints(), n, q);
    lemma_ring_mul_reduce(quo.ints(), den.ints(), n, q);
    assert(ring_mul(qs, den.ints(), n, q) == ring_times(quo, den));
    assert forall|k: int| 0 <= k < n implies #[trigger] rem.ring()[k] == (num.ring()[k] - ring_times(quo, den)[k]) % q by {
        let t = ring_times(quo, den)[k];
        let r = ring_seq(rs, n, q)[k];
        assert(num.ring()[k] == (t + r) % q);
        lemma_mod_bound(crate::primitives::poly::algebra::fold_upto(conv_seq(quo.ints(), den.ints()), n as int, k, conv_seq(quo.ints(), den.ints()).len() as int), q);
        lemma_small_mod(t as nat, q as nat);
        lemma_sub_mod_noop(t + r, t, q);
        lemma_mod_twice(crate::primitives::poly::algebra::fold_upto(rs, n as int, k, rs.len() as int), q);
    }
}

/// `x a + y b` modulo `q` depends only on `a` and `b` modulo `q`.
proof fn lemma_mod_lin(a: int, a2: int, b: int, b2: int, x: int, y: int, q: int)
    requires
        q > 0,
        a % q == a2 % q,
        b % q == b2 % q,
    ensures
        (x * a + y * b) % q == (x * a2 + y * b2) % q,
{
    vstd::arithmetic::div_mod::lemma_mul_mod_noop_right(x, a, q);
    vstd::arithmetic::div_mod::lemma_mul_mod_noop_right(x, a2, q);
    vstd::arithmetic::div_mod::lemma_mul_mod_noop_right(y, b, q);
    vstd::arithmetic::div_mod::lemma_mul_mod_noop_right(y, b2, q);
    lemma_add_mod_noop(x * a, y * b, q);
    lemma_add_mod_noop(x * a2, y * b2, q);
}

/// The new coefficient of one step, `x0 - x1 quo`, in the ring times `a`: `x0 a - quo (x1 a)`.
proof fn lemma_step_coeff<C: PolyConf>(a: Poly<C>, x0: Poly<C>, x1: Poly<C>, quo: Poly<C>, x2: Poly<C>, k: int)
    requires
        x0.is_canonical(),
        x1.is_canonical(),
        quo.is_canonical(),
        x2.is_canonical(),
        forall|i: int| 0 <= i < C::spec_max_poly_degree() ==> #[trigger] x2.coeff(i) == (x0.coeff(i) - get(ring_times(x1, quo), i))
            % C::spec_modulus(),
        0 <= k < C::spec_max_poly_degree(),
    ensures
        nega(x2.ints(), a.ring(), C::spec_max_poly_degree(), k) % C::spec_modulus() == (nega(x0.ints(), a.ring(), C::spec_max_poly_degree(), k)
            - nega(quo.ints(), nega_seq(x1.ints(), a.ring(), C::spec_max_poly_degree()), C::spec_max_poly_degree(), k)) % C::spec_modulus(),
{
    C::lemma_conf_valid();
    let n = C::spec_max_poly_degree();
    let q = C::spec_modulus();
    let aa = a.ring();
    let x0s = x0.ints();
    let x1s = x1.ints();
    let x2s = x2.ints();
    let qs = quo.ints();
    let ns = nega_seq(x1s, qs, n);
    let neg = Seq::new(n, |i: int| -get(ns, i));
    let dx = Seq::new(n, |i: int| get(x0s, i) + get(neg, i));
    assert forall|i: int| #[trigger] get(x2s, i) % q == get(dx, i) % q by {
        if 0 <= i < n {
            lemma_ring_mul_nega(x1s, qs, n, q, i);
            assert(x2.coeff(i) == (x0.coeff(i) - nega(x1s, qs, n, i) % q) % q);
            lemma_mod_twice(x0.coeff(i) - nega(x1s, qs, n, i) % q, q);
            lemma_sub_mod_noop(x0.coeff(i), nega(x1s, qs, n, i) % q, q);
            lemma_mod_twice(nega(x1s, qs, n, i), q);
            lemma_sub_mod_noop(x0.coeff(i), nega(x1s, qs, n, i), q);
        }
    }
    assert forall|i: int| #[trigger] get(aa, i) % q == get(aa, i) % q by {}
    lemma_nega_cong(x2s, dx, aa, aa, n, q, k);
    assert forall|i: int| #[trigger] get(dx, i) == get(x0s, i) + get(neg, i) by {}
    lemma_nega_add_left(dx, x0s, neg, aa, n, k);
    assert forall|i: int| #[trigger] get(neg, i) == -1 * get(ns, i) by {}
    lemma_nega_scale_left(neg, ns, -1, aa, n, k);
    // x1 quo = quo x1, then (quo x1) a = quo (x1 a)
    assert forall|i: int| 0 <= i < n implies #[trigger] ns[i] == nega_seq(qs, x1s, n)[i] by {
        lemma_nega_comm(x1s, qs, n, i);
    }
    assert(ns =~= nega_seq(qs, x1s, n));
    lemma_nega_assoc(qs, x1s, aa, n, k);
}

/// One step of the extended Euclidean algorithm keeps Bezout's identity: from `x0 a + y0 b = r0`
/// and `x1 a + y1 b = r1`, with `r0 = quo r1 + rem`, the new coefficients `x0 - x1 quo` and
/// `y0 - y1 quo` give `rem`.
pub proof fn lemma_bezout_step<C: PolyConf>(
    a: Poly<C>,
    b: Poly<C>,
    x0: Poly<C>,
    y0: Poly<C>,
    r0: Poly<C>,
    x1: Poly<C>,
    y1: Poly<C>,
    r1: Poly<C>,
    quo: Poly<C>,
    rem: Poly<C>,
    x2: Poly<C>,
    y2: Poly<C>,
)
    requires
        x0.is_canonical(),
        y0.is_canonical(),
        x1.is_canonical(),
        y1.is_canonical(),
        quo.is_canonical(),
        x2.is_canonical(),
        y2.is_canonical(),
        bezout(x0, y0, a, b, r0),
        bezout(x1, y1, a, b, r1),
        forall|i: int| 0 <= i < C::spec_max_poly_degree() ==> #[trigger] x2.coeff(i) == (x0.coeff(i) - get(ring_times(x1, quo), i))
            % C::spec_modulus(),
        forall|i: int| 0 <= i < C::spec_max_poly_degree() ==> #[trigger] y2.coeff(i) == (y0.coeff(i) - get(ring_times(y1, quo), i))
            % C::spec_modulus(),
        forall|k: int|
            0 <= k < C::spec_max_poly_degree() ==> #[trigger] rem.ring()[k] == (r0.ring()[k] - ring_times(quo, r1)[k])
                % C::spec_modulus(),
    ensures
        bezout(x2, y2, a, b, rem),
{
    C::lemma_conf_valid();
    let n = C::spec_max_poly_degree();
    let q = C::spec_modulus();
    let aa = a.ring();
    let bb = b.ring();
    let qs = quo.ints();
    let nxa = nega_seq(x1.ints(), aa, n);
    let nyb = nega_seq(y1.ints(), bb, n);
    let sum = Seq::new(n, |j: int| get(nxa, j) + get(nyb, j));
    assert forall|j: int| #[trigger] get(sum, j) % q == get(r1.ring(), j) % q by {
        if 0 <= j < n {
            lemma_times_nega(x1, a, j);
            lemma_times_nega(y1, b, j);
            assert(r1.ring()[j] == (ring_times(x1, a)[j] + ring_times(y1, b)[j]) % q);
            lemma_add_mod_noop(nega(x1.ints(), aa, n, j), nega(y1.ints(), bb, n, j), q);
            lemma_mod_twice(nega(x1.ints(), aa, n, j) + nega(y1.ints(), bb, n, j), q);
        }
    }
    assert forall|i: int| #[trigger] get(qs, i) % q == get(qs, i) % q by {}
    assert forall|i: int| #[trigger] get(sum, i) == get(nxa, i) + get(nyb, i) by {}
    assert forall|k: int| 0 <= k < n implies #[trigger] rem.ring()[k] == (ring_times(x2, a)[k] + ring_times(y2, b)[k]) % q by {
        lemma_step_coeff(a, x0, x1, quo, x2, k);
        lemma_step_coeff(b, y0, y1, quo, y2, k);
        lemma_times_nega(x2, a, k);
        lemma_times_nega(y2, b, k);
        lemma_times_nega(x0, a, k);
        lemma_times_nega(y0, b, k);
        lemma_times_nega(quo, r1, k);
        let u0 = nega(x0.ints(), aa, n, k);
        let v0 = nega(y0.ints(), bb, n, k);
        let u2 = nega(x2.ints(), aa, n, k);
        let v2 = nega(y2.ints(), bb, n, k);
        let p = nega(qs, nxa, n, k);
        let pp = nega(qs, nyb, n, k);
        let w = nega(qs, r1.ring(), n, k);
        // quo (x1 a) + quo (y1 b) = quo r1, modulo q
        lemma_nega_comm(qs, nxa, n, k);
        lemma_nega_comm(qs, nyb, n, k);
        lemma_nega_comm(qs, sum, n, k);
        lemma_nega_add_left(sum, nxa, nyb, qs, n, k);
        lemma_nega_cong(qs, qs, sum, r1.ring(), n, q, k);
        assert(w % q == (p + pp) % q);
        // r0 = x0 a + y0 b
        assert(r0.ring()[k] == (ring_times(x0, a)[k] + ring_times(y0, b)[k]) % q);
        lemma_add_mod_noop(u0, v0, q);
        assert(r0.ring()[k] % q == (u0 + v0) % q) by {
            lemma_mod_twice(ring_times(x0, a)[k] + ring_times(y0, b)[k], q);
        }
        lemma_mod_twice(w, q);
        lemma_mod_lin(r0.ring()[k], u0 + v0, ring_times(quo, r1)[k], w, 1, -1, q);
        lemma_mod_lin(u0 + v0, u0 + v0, w, p + pp, 1, -1, q);
        lemma_mod_lin(u2, u0 - p, v2, v0 - pp, 1, 1, q);
        lemma_add_mod_noop(u2, v2, q);
        assert((u0 + v0) - (p + pp) == (u0 - p) + (v0 - pp));
    }
}

/// The start of the extended Euclidean algorithm: `1 a + 0 b = a` and `0 a + 1 b = b`.
pub proof fn lemma_bezout_init<C: PolyConf>(a: Poly<C>, b: Poly<C>, one: Poly<C>, zero: Poly<C>, ra: Poly<C>, rb: Poly<C>)
    requires
        one.ints() == seq![1int],
        zero.ints() == Seq::<int>::empty(),
        ra.ring() == a.ring(),
        rb.ring() == b.ring(),
    ensures
        bezout(one, zero, a, b, ra),
        bezout(zero, one, a, b, rb),
{
    C::lemma_conf_valid();
    let n = C::spec_max_poly_degree();
    let q = C::spec_modulus();
    let e = Seq::<int>::empty();
    assert forall|p: Poly<C>| #[trigger] ring_times(one, p) == p.ring() by {
        assert forall|k: int| #[trigger] get(conv_seq(seq![1int], p.ints()), k) % q == get(p.ints(), k) % q by {
            crate::primitives::poly::algebra::lemma_get_conv_seq(seq![1int], p.ints(), k);
            assert(crate::primitives::poly::algebra::conv_upto(seq![1int], p.ints(), k, 0) == 0);
        }
        lemma_ring_seq_cong(conv_seq(seq![1int], p.ints()), p.ints(), n, q);
    }
    assert forall|p: Poly<C>| #[trigger] ring_times(zero, p) == ring_seq(e, n, q) by {
        assert forall|k: int| #[trigger] get(conv_seq(e, p.ints()), k) % q == #[trigger] get(e, k) % q by {
            crate::primitives::poly::algebra::lemma_get_conv_seq(e, p.ints(), k);
        }
        lemma_ring_seq_cong(conv_seq(e, p.ints()), e, n, q);
    }
    assert forall|k: int| 0 <= k < n implies #[trigger] ring_seq(e, n, q)[k] == 0 by {
        lemma_small_mod(0, q as nat);
    }
    assert forall|p: Poly<C>, k: int| 0 <= k < n implies (#[trigger] p.ring()[k]) % q == p.ring()[k] by {
        let l = p.ints().len() as int;
        lemma_mod_twice(crate::primitives::poly::algebra::fold_upto(p.ints(), n as int, k, l), q);
    }
}

/// Multiplying by zero gives zero in the ring.
pub proof fn lemma_ring_times_zero<C: PolyConf>(zero: Poly<C>, p: Poly<C>)
    requires
        zero.ints() == Seq::<int>::empty(),
    ensures
        forall|k: int| 0 <= k < C::spec_max_poly_degree() ==> #[trigger] ring_times(zero, p)[k] == 0,
        forall|k: int| 0 <= k < C::spec_max_poly_degree() ==> #[trigger] zero.ring()[k] == 0,
{
    C::lemma_conf_valid();
    let n = C::spec_max_poly_degree();
    let q = C::spec_modulus();
    let e = Seq::<int>::empty();
    assert forall|k: int| #[trigger] get(conv_seq(e, p.ints()), k) % q == #[trigger] get(e, k) % q by {
        crate::primitives::poly::algebra::lemma_get_conv_seq(e, p.ints(), k);
    }
    lemma_ring_seq_cong(conv_seq(e, p.ints()), e, n, q);
    assert forall|k: int| 0 <= k < n implies #[trigger] ring_seq(e, n, q)[k] == 0 by {
        lemma_small_mod(0, q as nat);
    }
}

/// When the last remainder of the extended Euclidean algorithm on `X^N + 1` and `a` is a
/// non-zero constant `d`, the Bezout coefficient of `a` divided by `d` is the inverse of `a`:
/// `x (X^N + 1) + y a = d` is `y a = d` in the ring.
pub proof fn lemma_inverse_from_bezout<C: PolyConf>(
    a: Poly<C>,
    x: Poly<C>,
    y: Poly<C>,
    d: Poly<C>,
    m: Poly<C>,
    dinv: u128,
    inv: Poly<C>,
)
    requires
        a.is_canonical(),
        y.is_canonical(),
        inv.is_canonical(),
        d.wf(),
        m.coeffs@ == crate::primitives::poly::inv::poly_modulus_coeffs(C::spec_max_poly_degree()),
        bezout(x, y, m, a, d),
        d.coeffs@.len() == 1,
        (d.coeffs@[0] * dinv) % C::spec_modulus() == 1,
        forall|i: int| #[trigger] inv.coeff(i) == (dinv * y.coeff(i)) % C::spec_modulus(),
    ensures
        ring_times(a, inv) == ring_seq(seq![1int], C::spec_max_poly_degree(), C::spec_modulus()),
{
    C::lemma_conf_valid();
    let n = C::spec_max_poly_degree();
    let q = C::spec_modulus();
    let one = seq![1int];
    let c = d.coeffs@[0] as int;
    crate::primitives::poly::modulus::lemma_ring_mul_modulus_zero(x.ints(), n, q);
    let ys = y.ints();
    let cy = Seq::new(n, |i: int| dinv * get(ys, i));
    assert forall|i: int| #[trigger] get(inv.ints(), i) % q == get(cy, i) % q by {
        assert(inv.coeff(i) == (dinv * y.coeff(i)) % q);
        lemma_mod_twice(dinv * y.coeff(i), q);
        if !(0 <= i < n) {
            assert(y.coeff(i) == 0);
            assert(dinv * 0 == 0);
        }
    }
    assert forall|i: int| #[trigger] get(a.ints(), i) % q == get(a.ints(), i) % q by {}
    assert forall|i: int| #[trigger] get(cy, i) == dinv * get(ys, i) by {
        if !(0 <= i < n) {
            assert(y.coeff(i) == 0);
            assert(dinv * 0 == 0);
        }
    }
    assert forall|k: int| 0 <= k < n implies #[trigger] ring_times(a, inv)[k] == ring_seq(one, n, q)[k] by {
        lemma_ring_mul_nega(a.ints(), inv.ints(), n, q, k);
        lemma_ring_mul_nega(ys, a.ints(), n, q, k);
        lemma_nega_cong(a.ints(), a.ints(), inv.ints(), cy, n, q, k);
        lemma_nega_comm(a.ints(), cy, n, k);
        lemma_nega_scale_left(cy, ys, dinv as int, a.ints(), n, k);
        let w = nega(ys, a.ints(), n, k);
        // d = y a in the ring
        assert(ring_times(x, m)[k] == 0);
        assert(d.ring()[k] == (ring_times(x, m)[k] + ring_times(y, a)[k]) % q);
        lemma_mod_twice(w, q);
        assert(d.ring()[k] == w % q);
        assert(crate::primitives::poly::algebra::fold_upto(d.ints(), n as int, k + n, 1) == 0);
        lemma_small_mod(c as nat, q as nat);
        lemma_small_mod(0, q as nat);
        assert(d.ring()[k] == if k == 0 { c } else { 0 });
        vstd::arithmetic::div_mod::lemma_mul_mod_noop_right(dinv as int, w, q);
        assert(crate::primitives::poly::algebra::fold_upto(one, n as int, k + n, 1) == 0);
        assert(ring_times(a, inv)[k] == nega(a.ints(), inv.ints(), n, k) % q);
        assert(nega(a.ints(), cy, n, k) == dinv * w);
        assert(ring_times(a, inv)[k] == (dinv * w) % q);
        assert(ring_times(a, inv)[k] == (dinv * d.ring()[k]) % q);
        lemma_small_mod(1, q as nat);
        if k == 0 {
            assert(dinv * c == c * dinv) by (nonlinear_arith);
            assert(ring_seq(one, n, q)[k] == 1);
        } else {
            assert(dinv * 0 == 0);
            assert(ring_seq(one, n, q)[k] == 0);
        }
    }
    assert(ring_times(a, inv) =~= ring_seq(one, n, q));
}

} // verus!
