//! Ciphertext multiplication: the exact product of the lifted ciphertexts, scaled by `t / q`.
use vstd::arithmetic::div_mod::*;
use vstd::arithmetic::mul::*;
use vstd::prelude::*;

use crate::primitives::poly::algebra::{get, lemma_negacyclic_sum, negacyclic, negacyclic_term};
use crate::primitives::poly::conf::PolyConf;
use crate::primitives::poly::Poly;
use crate::primitives::sum::sum;
use crate::primitives::wide::{
    radix, trunc_div, wide_add, wide_div_trunc, wide_from_i128, wide_in_range, wide_lt, wide_mul_small, wide_sub, Wide,
};
use crate::primitives::yashe::conf::{yashe_params_valid, LiftConf, YasheConf};
use crate::primitives::yashe::{center_lift, scale_coeff, Ciphertext, Yashe};

verus! {

/// `2^40`, the radix used to split coefficients for exact products.
pub open spec fn half_radix() -> int {
    0x100_0000_0000
}

/// The coefficient at `i`, or zero past the stored coefficients.
fn coeff_or_zero<C: PolyConf>(p: &Poly<C>, i: usize) -> (r: u128)
    ensures
        r == p.coeff(i as int),
{
    if i < p.coeffs.len() {
        p.coeffs[i]
    } else {
        0
    }
}

/// The exact coefficient `k` of `a * b` in `Z[X] / (X^n + 1)`, before reduction modulo `q`.
fn exact_coeff<C: YasheConf>(a: &Poly<C>, b: &Poly<C>, k: usize) -> (r: Wide)
    requires
        a.is_canonical(),
        b.is_canonical(),
        k < C::spec_max_poly_degree(),
    ensures
        r.value() == negacyclic(a.ints(), b.ints(), C::spec_max_poly_degree(), k as int),
{
    proof {
        C::lemma_conf_valid();
        C::lemma_yashe_conf_valid();
        lemma_negacyclic_sum(a.ints(), b.ints(), C::spec_max_poly_degree(), k as int);
    }
    let n = C::max_poly_degree();
    let ghost f = |i: int| negacyclic_term(a.ints(), b.ints(), C::spec_max_poly_degree(), k as int, i);
    let mut s2: i128 = 0;
    let mut s1: i128 = 0;
    let mut s0: i128 = 0;
    let mut i: usize = 0;
    while i < n
        invariant
            i <= n,
            n == C::spec_max_poly_degree(),
            n <= 0x1000,
            k < n,
            a.is_canonical(),
            b.is_canonical(),
            C::spec_modulus() < 0x1_0000_0000_0000_0000_0000,
            f == (|i: int| negacyclic_term(a.ints(), b.ints(), C::spec_max_poly_degree(), k as int, i)),
            s2 * 0x1_0000_0000_0000_0000_0000 + s1 * half_radix() + s0 == sum(f, i as nat),
            -(i * 0x1_0000_0000_0000_0000_0000) <= s2 <= i * 0x1_0000_0000_0000_0000_0000,
            -(i * 0x2_0000_0000_0000_0000_0000) <= s1 <= i * 0x2_0000_0000_0000_0000_0000,
            -(i * 0x1_0000_0000_0000_0000_0000) <= s0 <= i * 0x1_0000_0000_0000_0000_0000,
        decreases n - i,
    {
        let x = coeff_or_zero(a, i);
        let (y, wrapped) = if i <= k {
            (coeff_or_zero(b, k - i), false)
        } else {
            (coeff_or_zero(b, k + n - i), true)
        };
        proof {
            assert(x < 0x1_0000_0000_0000_0000_0000);
            assert(y < 0x1_0000_0000_0000_0000_0000);
        }
        let x1 = x / 0x100_0000_0000u128;
        let x0 = x % 0x100_0000_0000u128;
        let y1 = y / 0x100_0000_0000u128;
        let y0 = y % 0x100_0000_0000u128;
        proof {
            assert(x1 < 0x100_0000_0000 && y1 < 0x100_0000_0000) by (nonlinear_arith)
                requires
                    x < 0x1_0000_0000_0000_0000_0000,
                    y < 0x1_0000_0000_0000_0000_0000,
                    x1 == x / 0x100_0000_0000,
                    y1 == y / 0x100_0000_0000;
            assert(x1 * y1 < 0x1_0000_0000_0000_0000_0000) by (nonlinear_arith)
                requires x1 < 0x100_0000_0000, y1 < 0x100_0000_0000;
            assert(x1 * y0 < 0x1_0000_0000_0000_0000_0000) by (nonlinear_arith)
                requires x1 < 0x100_0000_0000, y0 < 0x100_0000_0000;
            assert(x0 * y1 < 0x1_0000_0000_0000_0000_0000) by (nonlinear_arith)
                requires x0 < 0x100_0000_0000, y1 < 0x100_0000_0000;
            assert(x0 * y0 < 0x1_0000_0000_0000_0000_0000) by (nonlinear_arith)
                requires x0 < 0x100_0000_0000, y0 < 0x100_0000_0000;
        }
        let p2 = (x1 * y1) as i128;
        let p1 = (x1 * y0 + x0 * y1) as i128;
        let p0 = (x0 * y0) as i128;
        proof {
            assert(x * y == p2 * 0x1_0000_0000_0000_0000_0000 + p1 * half_radix() + p0) by (nonlinear_arith)
                requires
                    x == x1 * 0x100_0000_0000 + x0,
                    y == y1 * 0x100_0000_0000 + y0,
                    p2 == x1 * y1,
                    p1 == x1 * y0 + x0 * y1,
                    p0 == x0 * y0;
            let t = f(i as int);
            if i <= k {
                assert(t == x * y);
            } else {
                assert(t == -(x * y));
            }
            assert(sum(f, (i + 1) as nat) == sum(f, i as nat) + f(i as int));
            assert((i + 1) * 0x1_0000_0000_0000_0000_0000 == i * 0x1_0000_0000_0000_0000_0000 + 0x1_0000_0000_0000_0000_0000);
            assert((i + 1) * 0x2_0000_0000_0000_0000_0000 == i * 0x2_0000_0000_0000_0000_0000 + 0x2_0000_0000_0000_0000_0000);
            assert(i * 0x2_0000_0000_0000_0000_0000 <= 0x1000 * 0x2_0000_0000_0000_0000_0000) by (nonlinear_arith)
                requires i <= 0x1000;
        }
        if wrapped {
            s2 = s2 - p2;
            s1 = s1 - p1;
            s0 = s0 - p0;
        } else {
            s2 = s2 + p2;
            s1 = s1 + p1;
            s0 = s0 + p0;
        }
        i += 1;
    }
    proof {
        assert(-(0x1000 * 0x1_0000_0000_0000_0000_0000) <= s2 <= 0x1000 * 0x1_0000_0000_0000_0000_0000) by (nonlinear_arith)
            requires -(n * 0x1_0000_0000_0000_0000_0000) <= s2 <= n * 0x1_0000_0000_0000_0000_0000, n <= 0x1000;
        assert(-(0x1000 * 0x2_0000_0000_0000_0000_0000) <= s1 <= 0x1000 * 0x2_0000_0000_0000_0000_0000) by (nonlinear_arith)
            requires -(n * 0x2_0000_0000_0000_0000_0000) <= s1 <= n * 0x2_0000_0000_0000_0000_0000, n <= 0x1000;
        assert(-(0x1000 * 0x1_0000_0000_0000_0000_0000) <= s0 <= 0x1000 * 0x1_0000_0000_0000_0000_0000) by (nonlinear_arith)
            requires -(n * 0x1_0000_0000_0000_0000_0000) <= s0 <= n * 0x1_0000_0000_0000_0000_0000, n <= 0x1000;
    }
    let w2 = Wide { hi: s2 * 0x1_0000i128, lo: 0 };
    let w1 = wide_mul_small(wide_from_i128(s1), 0x100_0000_0000u64);
    let w0 = wide_from_i128(s0);
    proof {
        assert(w2.value() == s2 * 0x1_0000_0000_0000_0000_0000);
    }
    let w21 = wide_add(w2, w1);
    wide_add(w21, w0)
}

/// `e` reduced modulo `m`, for a positive `m`.
fn wide_mod(e: Wide, m: Wide) -> (r: Wide)
    requires
        m.value() > 0,
        wide_in_range(e.value()),
        wide_in_range(m.value()),
        wide_in_range(e.value() + m.value()),
        wide_in_range(-m.value()),
    ensures
        r.value() == e.value() % m.value(),
{
    let zero = Wide { hi: 0, lo: 0 };
    let mut r = e;
    let ghost mut j: int = 0;
    let mut negative = wide_lt(r, zero);
    while negative
        invariant
            negative == (r.value() < 0),
            r.value() == e.value() + j * m.value(),
            m.value() > 0,
            wide_in_range(e.value()),
            wide_in_range(m.value()),
            wide_in_range(-m.value()),
            e.value() <= r.value(),
            wide_in_range(r.value()),
            zero.value() == 0,
        decreases m.value() - r.value(),
    {
        r = wide_add(r, m);
        proof {
            j = j + 1;
            assert(r.value() == e.value() + j * m.value()) by (nonlinear_arith)
                requires r.value() == e.value() + (j - 1) * m.value() + m.value();
        }
        negative = wide_lt(r, zero);
    }
    while !wide_lt(r, m)
        invariant
            r.value() == e.value() + j * m.value(),
            r.value() >= 0,
            m.value() > 0,
            wide_in_range(r.value()),
            wide_in_range(m.value()),
            wide_in_range(-m.value()),
        decreases r.value(),
    {
        r = wide_sub(r, m);
        proof {
            j = j - 1;
            assert(r.value() == e.value() + j * m.value()) by (nonlinear_arith)
                requires r.value() == e.value() + (j + 1) * m.value() - m.value();
        }
    }
    proof {
        assert(e.value() == (-j) * m.value() + r.value()) by (nonlinear_arith)
            requires r.value() == e.value() + j * m.value();
        lemma_fundamental_div_mod_converse(e.value(), m.value(), -j, r.value());
    }
    r
}

/// `z` reduced modulo `q`, as a coefficient in `[0, q)`.
fn i128_as_coeff(z: i128, q: u128) -> (r: u128)
    requires
        0 < q < 0x1_0000_0000_0000_0000_0000,
        z > i128::MIN,
    ensures
        r == (z as int) % (q as int),
{
    if z >= 0 {
        (z as u128) % q
    } else {
        let m = ((-z) as u128) % q;
        proof {
            let k = ((-z) as int) / (q as int);
            lemma_fundamental_div_mod((-z) as int, q as int);
            lemma_mod_bound((-z) as int, q as int);
            if m == 0 {
                assert(z == (-k) * q + 0) by (nonlinear_arith)
                    requires (-z) == (q as int) * k + m, m == 0;
                lemma_fundamental_div_mod_converse(z as int, q as int, -k, 0);
            } else {
                assert(z == (-k - 1) * q + (q - m)) by (nonlinear_arith)
                    requires (-z) == (q as int) * k + m;
                lemma_fundamental_div_mod_converse(z as int, q as int, -k - 1, (q - m) as int);
            }
        }
        if m == 0 {
            0
        } else {
            q - m
        }
    }
}

/// The scaling step of ciphertext multiplication on one exact product coefficient.
fn scale<C: YasheConf>(e: Wide) -> (r: u128)
    requires
        -0x1_0000_0000_0000_0000_0000_0000_0000_0000_0000_0000_0000 <= e.value() <= 0x1_0000_0000_0000_0000_0000_0000_0000_0000_0000_0000_0000,
    ensures
        r == scale_coeff::<C>(e.value()),
{
    proof {
        C::lemma_conf_valid();
        C::lemma_yashe_conf_valid();
    }
    let q = C::modulus();
    let t = C::t();
    let bn = C::PolyBN::lifted_modulus();
    let ghost bnv = bn.value();
    let ghost qv = q as int;
    let r = wide_mod(e, bn);
    let twice = wide_mul_small(r, 2);
    let c = if wide_lt(twice, bn) {
        r
    } else {
        wide_sub(r, bn)
    };
    proof {
        lemma_mod_bound(e.value(), bnv);
        assert(c.value() == center_lift(e.value(), bnv));
        assert(-bnv <= c.value() <= bnv);
        assert(-(bnv * t) <= c.value() * t <= bnv * t) by (nonlinear_arith)
            requires -bnv <= c.value() <= bnv, t >= 0;
        assert(bnv * t <= 0x400_0000_0000_0000_0000_0000_0000_0000_0000_0000_0000_0000) by (nonlinear_arith)
            requires 0 < bnv < 0x400_0000_0000_0000_0000_0000_0000_0000_0000_0000_0000, 0 <= t <= 0x1_0000;
        assert(wide_in_range(c.value() * t));
    }
    let x = wide_mul_small(c, t);
    let half = wide_from_i128(((q - 1) / 2) as i128);
    let zero = Wide { hi: 0, lo: 0 };
    proof {
        assert(half.value() == (qv - 1) / 2);
        assert(wide_in_range(x.value() + half.value()));
        assert(wide_in_range(x.value() - half.value()));
        assert(wide_in_range(half.value()));
    }
    let y = if wide_lt(zero, x) {
        wide_add(x, half)
    } else {
        wide_sub(x, half)
    };
    proof {
        let yv = y.value();
        assert(-(bnv * t + qv) <= yv <= bnv * t + qv);
        assert(wide_in_range(yv));
        assert(wide_in_range(-yv));
        assert(bnv * t <= qv * 0x100_0000_0000_0000_0000_0000_0000_0000);
        if yv >= 0 {
            assert(yv / qv <= 0x100_0000_0000_0000_0000_0000_0000_0000 + 1) by (nonlinear_arith)
                requires 0 <= yv <= bnv * t + qv, bnv * t <= qv * 0x100_0000_0000_0000_0000_0000_0000_0000, qv > 0;
        } else {
            assert((-yv) / qv <= 0x100_0000_0000_0000_0000_0000_0000_0000 + 1) by (nonlinear_arith)
                requires 0 < -yv <= bnv * t + qv, bnv * t <= qv * 0x100_0000_0000_0000_0000_0000_0000_0000, qv > 0;
        }
        lemma_div_pos_is_pos(if yv >= 0 { yv } else { -yv }, qv);
    }
    let z = wide_div_trunc(y, q);
    proof {
        assert(x.value() == center_lift(e.value(), bnv) * t);
    }
    i128_as_coeff(z, q)
}

impl<C: YasheConf> Yashe<C> {
    /// Ciphertext multiplication, as on page 13 of <https://eprint.iacr.org/2013/075.pdf>: the
    /// exact product of the ciphertexts in `Z[X] / (X^N + 1)` is reduced modulo the lifted
    /// modulus and centre lifted, then each coefficient is scaled by `t / q` with rounding, and
    /// reduced modulo `q`.
    pub fn ciphertext_mul(&self, c1: Ciphertext<C>, c2: Ciphertext<C>) -> (r: Ciphertext<C>)
        requires
            c1.c.is_canonical(),
            c2.c.is_canonical(),
        ensures
            r.c.is_canonical(),
            forall|i: int|
                0 <= i < C::spec_max_poly_degree() ==> #[trigger] r.c.coeff(i) == scale_coeff::<C>(
                    negacyclic(c1.c.ints(), c2.c.ints(), C::spec_max_poly_degree(), i),
                ),
    {
        proof {
            C::lemma_conf_valid();
            C::lemma_yashe_conf_valid();
        }
        let n = C::max_poly_degree();
        let mut coeffs: Vec<u128> = Vec::new();
        let mut k: usize = 0;
        while k < n
            invariant
                k <= n,
                n == C::spec_max_poly_degree(),
                c1.c.is_canonical(),
                c2.c.is_canonical(),
                coeffs@.len() == k,
                forall|j: int|
                    0 <= j < k ==> #[trigger] coeffs@[j] as int == scale_coeff::<C>(
                        negacyclic(c1.c.ints(), c2.c.ints(), C::spec_max_poly_degree(), j),
                    ),
                forall|j: int| 0 <= j < k ==> (#[trigger] coeffs@[j] as int) < C::spec_modulus(),
            decreases n - k,
        {
            let e = exact_coeff(&c1.c, &c2.c, k);
            proof {
                lemma_exact_coeff_bound::<C>(c1.c, c2.c, k as int);
            }
            let x = scale::<C>(e);
            proof {
                assert(x == scale_coeff::<C>(e.value()));
                lemma_scale_coeff_range::<C>(e.value());
            }
            coeffs.push(x);
            k += 1;
        }
        let c = Poly::<C>::from_coefficients_vec(coeffs);
        Ciphertext { c }
    }
}

/// An exact product coefficient of reduced polynomials is at most `n q^2` in magnitude.
proof fn lemma_exact_coeff_bound<C: YasheConf>(a: Poly<C>, b: Poly<C>, k: int)
    requires
        a.is_canonical(),
        b.is_canonical(),
        0 <= k < C::spec_max_poly_degree(),
    ensures
        -0x1_0000_0000_0000_0000_0000_0000_0000_0000_0000_0000_0000 <= negacyclic(a.ints(), b.ints(), C::spec_max_poly_degree(), k)
            <= 0x1_0000_0000_0000_0000_0000_0000_0000_0000_0000_0000_0000,
{
    C::lemma_conf_valid();
    C::lemma_yashe_conf_valid();
    let n = C::spec_max_poly_degree();
    let q = C::spec_modulus();
    lemma_negacyclic_sum(a.ints(), b.ints(), n, k);
    let f = |i: int| negacyclic_term(a.ints(), b.ints(), n, k, i);
    assert forall|i: int| 0 <= i < n implies -(q * q) <= #[trigger] f(i) <= q * q by {
        let x = get(a.ints(), i);
        let y1 = get(b.ints(), k - i);
        let y2 = get(b.ints(), k + n - i);
        assert(0 <= x < q);
        assert(0 <= y1 < q);
        assert(0 <= y2 < q);
        assert(0 <= x * y1 <= q * q) by (nonlinear_arith)
            requires 0 <= x < q, 0 <= y1 < q;
        assert(0 <= x * y2 <= q * q) by (nonlinear_arith)
            requires 0 <= x < q, 0 <= y2 < q;
    }
    crate::primitives::sum::lemma_sum_bounds(f, n, -(q * q), q * q);
    assert(n * (q * q) <= 0x1000 * (0x1_0000_0000_0000_0000_0000 * 0x1_0000_0000_0000_0000_0000)) by (nonlinear_arith)
        requires n <= 0x1000, 0 < q < 0x1_0000_0000_0000_0000_0000;
    assert(n * (-(q * q)) == -(n * (q * q))) by (nonlinear_arith);
}

/// A scaled coefficient is reduced modulo `q`.
proof fn lemma_scale_coeff_range<C: YasheConf>(e: int)
    ensures
        0 <= scale_coeff::<C>(e) < C::spec_modulus(),
{
    C::lemma_conf_valid();
    let q = C::spec_modulus();
    let x = center_lift(e, C::PolyBN::spec_lifted_modulus() as int) * C::spec_t();
    let y = if x > 0 {
        x + (q - 1) / 2
    } else {
        x - (q - 1) / 2
    };
    lemma_mod_bound(trunc_div(y, q), q);
}

} // verus!
