//! Polynomial multiplication in `Z_q[X] / (X^N + 1)`.
use core::marker::PhantomData;
use vstd::arithmetic::div_mod::*;
use vstd::prelude::*;

use crate::primitives::field::{add_mod, modulus_ok, mul_mod};
use crate::primitives::poly::algebra::{
    cong, conv, conv_seq, trimmed, conv_upto, get, ints, lemma_conv_cong, lemma_conv_outside,
    lemma_conv_upto_past_end, lemma_get_conv_seq, lemma_get_padd, lemma_get_psub, lemma_get_shift,
    lemma_karatsuba_identity, lemma_ring_add_cong, lemma_ring_seq_cong, lemma_ring_shift_cong,
    lemma_ring_sub_cong, padd, psub, ring_mul, ring_seq, shift,
};
use crate::primitives::poly::conf::{is_pow2, PolyConf};
use crate::primitives::poly::trivial::lemma_pointwise_ring;
use crate::primitives::poly::Poly;

pub mod flat;

verus! {

impl<C: PolyConf> Poly<C> {
    /// Multiplies `self` by `other` with the schoolbook `O(n^2)` method, without reducing by the
    /// polynomial modulus. The zero polynomial is returned when either factor is zero; otherwise
    /// the product has `len(self) + len(other) - 1` coefficients.
    pub fn naive_mul(&self, other: &Self) -> (r: Self)
        requires
            self.wf(),
            other.wf(),
            self.coeffs@.len() + other.coeffs@.len() <= usize::MAX,
        ensures
            r.wf(),
            r.coeffs@.len() == if self.coeffs@.len() == 0 || other.coeffs@.len() == 0 {
                0
            } else {
                self.coeffs@.len() + other.coeffs@.len() - 1
            },
            forall|k: int| r.coeff(k) == conv(self.ints(), other.ints(), k) % C::spec_modulus(),
    {
        proof {
            C::lemma_conf_valid();
        }
        let q = C::modulus();
        let la = self.coeffs.len();
        let lb = other.coeffs.len();
        let ghost a = self.ints();
        let ghost b = other.ints();
        let ghost qi = q as int;
        if la == 0 || lb == 0 {
            let r = Self::zero();
            proof {
                assert forall|k: int| r.coeff(k) == conv(a, b, k) % C::spec_modulus() by {
                    if la == 0 {
                        assert(conv(a, b, k) == 0);
                    } else {
                        lemma_conv_outside(a, b, k, a.len());
                    }
                    lemma_small_mod(0, q as nat);
                }
            }
            return r;
        }
        let len = la + lb - 1;
        let mut c = Self::non_canonical_zeroes(len).coeffs;
        let mut i: usize = 0;
        proof {
            lemma_small_mod(0, q as nat);
        }
        while i < la
            invariant
                0 < la,
                0 < lb,
                i <= la,
                la == a.len(),
                lb == b.len(),
                len == la + lb - 1,
                a == self.ints(),
                b == other.ints(),
                self.wf(),
                other.wf(),
                q == C::spec_modulus(),
                qi == q,
                modulus_ok(qi),
                c@.len() == len,
                forall|k: int| 0 <= k < len ==> c@[k] < q,
                forall|k: int| 0 <= k < len ==> c@[k] as int == conv_upto(a, b, k, i as nat) % qi,
            decreases la - i,
        {
            let mut j: usize = 0;
            while j < lb
                invariant
                    0 < la,
                    0 < lb,
                    i < la,
                    j <= lb,
                    la == a.len(),
                    lb == b.len(),
                    len == la + lb - 1,
                    a == self.ints(),
                    b == other.ints(),
                    self.wf(),
                    other.wf(),
                    q == C::spec_modulus(),
                    qi == q,
                    modulus_ok(qi),
                    c@.len() == len,
                    forall|k: int| 0 <= k < len ==> c@[k] < q,
                    forall|k: int|
                        0 <= k < len ==> c@[k] as int == (conv_upto(a, b, k, i as nat) + (if i <= k < i + j {
                            a[i as int] * b[k - i]
                        } else {
                            0
                        })) % qi,
                decreases lb - j,
            {
                let k = i + j;
                let prod = mul_mod(self.coeffs[i], other.coeffs[j], q);
                let old_ck = c[k];
                let sum = add_mod(old_ck, prod, q);
                proof {
                    let base = conv_upto(a, b, k as int, i as nat);
                    let before = base + (if i <= k < i + j { a[i as int] * b[k - i] } else { 0 });
                    assert(before == base);
                    lemma_add_mod_noop(base, a[i as int] * b[j as int], qi);
                    lemma_mod_twice(a[i as int] * b[j as int], qi);
                    lemma_mod_twice(base, qi);
                    lemma_add_mod_noop(base % qi, (a[i as int] * b[j as int]) % qi, qi);
                    lemma_mod_twice(old_ck as int, qi);
                }
                c.set(k, sum);
                j += 1;
            }
            proof {
                assert forall|k: int| 0 <= k < len implies c@[k] as int == conv_upto(a, b, k, (i + 1) as nat) % qi by {
                    assert(conv_upto(a, b, k, (i + 1) as nat) == conv_upto(a, b, k, i as nat) + get(a, i as int) * get(b, k - i));
                }
            }
            i += 1;
        }
        let r = Poly { coeffs: c, conf: PhantomData };
        proof {
            assert forall|k: int| r.coeff(k) == conv(a, b, k) % C::spec_modulus() by {
                if 0 <= k < len {
                } else {
                    lemma_conv_outside(a, b, k, a.len());
                    lemma_small_mod(0, q as nat);
                }
            }
        }
        r
    }
}

/// Returns `a * b` reduced by `X^N + 1`, using the schoolbook method.
pub fn naive_cyclotomic_mul<C: PolyConf>(a: &Poly<C>, b: &Poly<C>) -> (r: Poly<C>)
    requires
        a.wf(),
        b.wf(),
        a.coeffs@.len() + b.coeffs@.len() <= usize::MAX,
    ensures
        r.is_canonical(),
        r.ring() == ring_mul(a.ints(), b.ints(), C::spec_max_poly_degree(), C::spec_modulus()),
{
    let mut res = a.naive_mul(b);
    proof {
        assert forall|k: int| res.coeff(k) == get(conv_seq(a.ints(), b.ints()), k) % C::spec_modulus() by {
            if !(0 <= k < a.ints().len() + b.ints().len()) {
                C::lemma_conf_valid();
                lemma_conv_outside(a.ints(), b.ints(), k, a.ints().len());
            }
        }
        lemma_pointwise_ring(&res, conv_seq(a.ints(), b.ints()));
    }
    res.reduce_mod_poly();
    res
}

/// Minimum degree for recursive Karatsuba calls: below it the schoolbook method is used.
pub const REC_KARATSUBA_MIN_DEGREE: usize = 8;

impl<C: PolyConf> Poly<C> {
    /// The degree of the stored coefficients: the index of the last one, or `0` for the zero
    /// polynomial.
    pub fn degree(&self) -> (r: usize)
        ensures
            r == if self.coeffs@.len() == 0 { 0 } else { self.coeffs@.len() - 1 },
    {
        if self.coeffs.len() == 0 {
            0
        } else {
            self.coeffs.len() - 1
        }
    }

    /// Multiplies two polynomials, and returns the result in reduced form.
    pub fn mul_reduce(&self, rhs: &Self) -> (r: Self)
        requires
            self.wf(),
            rhs.wf(),
            trimmed(self.coeffs@),
            trimmed(rhs.coeffs@),
            self.coeffs@.len() <= C::spec_max_poly_degree() + 1,
            rhs.coeffs@.len() <= C::spec_max_poly_degree() + 1,
        ensures
            r.is_canonical(),
            r.ring() == ring_mul(self.ints(), rhs.ints(), C::spec_max_poly_degree(), C::spec_modulus()),
    {
        mul_poly(self, rhs)
    }

    /// Multiplies then reduces by the polynomial modulus.
    pub fn mul(&self, rhs: &Self) -> (r: Self)
        requires
            self.wf(),
            rhs.wf(),
            trimmed(self.coeffs@),
            trimmed(rhs.coeffs@),
            self.coeffs@.len() <= C::spec_max_poly_degree() + 1,
            rhs.coeffs@.len() <= C::spec_max_poly_degree() + 1,
        ensures
            r.is_canonical(),
            r.ring() == ring_mul(self.ints(), rhs.ints(), C::spec_max_poly_degree(), C::spec_modulus()),
    {
        mul_poly(self, rhs)
    }
}

/// The fastest available cyclotomic multiplication (multiply then reduce).
pub fn mul_poly<C: PolyConf>(a: &Poly<C>, b: &Poly<C>) -> (r: Poly<C>)
    requires
        a.wf(),
        b.wf(),
        trimmed(a.coeffs@),
        trimmed(b.coeffs@),
        a.coeffs@.len() <= C::spec_max_poly_degree() + 1,
        b.coeffs@.len() <= C::spec_max_poly_degree() + 1,
    ensures
        r.is_canonical(),
        r.ring() == ring_mul(a.ints(), b.ints(), C::spec_max_poly_degree(), C::spec_modulus()),
{
    rec_karatsuba_mul(a, b)
}

/// Returns `a * b` reduced by `X^N + 1`, using the recursive Karatsuba method.
/// Both factors have degree at most `N`.
pub fn rec_karatsuba_mul<C: PolyConf>(a: &Poly<C>, b: &Poly<C>) -> (r: Poly<C>)
    requires
        a.wf(),
        b.wf(),
        trimmed(a.coeffs@),
        trimmed(b.coeffs@),
        a.coeffs@.len() <= C::spec_max_poly_degree() + 1,
        b.coeffs@.len() <= C::spec_max_poly_degree() + 1,
    ensures
        r.is_canonical(),
        r.ring() == ring_mul(a.ints(), b.ints(), C::spec_max_poly_degree(), C::spec_modulus()),
{
    proof {
        C::lemma_conf_valid();
    }
    rec_karatsuba_mul_inner(a, b, C::max_poly_degree())
}

/// Splits the polynomial into the parts below and above `X^(chunk / 2)`, each of which can be
/// zero. Returns `(low, high)`, where `low` holds the constant term.
pub fn poly_split_half<C: PolyConf>(a: &Poly<C>, chunk: usize) -> (r: (Poly<C>, Poly<C>))
    requires
        a.wf(),
        chunk <= C::spec_max_poly_degree(),
        a.coeffs@.len() <= chunk + 1,
    ensures
        r.0.wf(),
        r.1.is_canonical(),
        forall|i: int| r.0.coeff(i) == (if i < chunk / 2 { a.coeff(i) } else { 0 }),
        forall|i: int| i >= 0 ==> r.1.coeff(i) == a.coeff(i + chunk / 2),
        r.0.coeffs@.len() <= chunk / 2,
        trimmed(a.coeffs@) ==> trimmed(r.0.coeffs@),
{
    proof {
        C::lemma_conf_valid();
    }
    let (quotient, remainder) = a.new_div_xn(chunk / 2);
    (remainder, quotient)
}

/// A polynomial with no leading zero whose coefficients vanish from `m` on has at most `m`
/// coefficients.
proof fn lemma_len_bound<C: PolyConf>(p: &Poly<C>, m: int)
    requires
        p.coeffs@.len() > 0 ==> p.coeffs@.last() != 0,
        m >= 0,
        forall|i: int| i >= m ==> p.coeff(i) == 0,
    ensures
        p.coeffs@.len() <= m,
{
    if p.coeffs@.len() > m {
        assert(p.coeff(p.coeffs@.len() - 1) == 0);
    }
}

/// Returns `a * b` reduced by `X^N + 1` using the recursive Karatsuba method, where both factors
/// have degree at most `chunk`. At each level the factors are split at `X^(chunk / 2)`.
#[verifier::rlimit(50)]
pub fn rec_karatsuba_mul_inner<C: PolyConf>(a: &Poly<C>, b: &Poly<C>, chunk: usize) -> (r: Poly<C>)
    requires
        a.wf(),
        b.wf(),
        trimmed(a.coeffs@),
        trimmed(b.coeffs@),
        a.coeffs@.len() <= chunk + 1,
        b.coeffs@.len() <= chunk + 1,
        is_pow2(chunk as nat),
        chunk <= C::spec_max_poly_degree(),
    ensures
        r.is_canonical(),
        r.ring() == ring_mul(a.ints(), b.ints(), C::spec_max_poly_degree(), C::spec_modulus()),
    decreases chunk,
{
    proof {
        C::lemma_conf_valid();
    }
    let ghost n = C::spec_max_poly_degree();
    let ghost q = C::spec_modulus();
    let ghost aa = a.ints();
    let ghost bb = b.ints();
    let mut res;
    if a.degree() <= REC_KARATSUBA_MIN_DEGREE || b.degree() <= REC_KARATSUBA_MIN_DEGREE {
        res = a.naive_mul(b);
        proof {
            assert forall|k: int| res.coeff(k) == get(conv_seq(aa, bb), k) % q by {
                lemma_get_conv_seq(aa, bb, k);
            }
            lemma_pointwise_ring(&res, conv_seq(aa, bb));
        }
    } else {
        let h = chunk / 2;
        proof {
            assert(chunk > 1);
            assert(is_pow2(h as nat));
            assert(h >= 8) by {
                if h < 8 {
                    assert(chunk < 16);
                    assert(chunk == 8 || chunk == 4 || chunk == 2 || chunk == 1) by {
                        assert(is_pow2((chunk / 2) as nat));
                        if chunk / 2 > 1 {
                            assert(is_pow2((chunk / 4) as nat));
                        }
                    }
                }
            }
        }
        let (mut al, ar) = poly_split_half(a, chunk);
        let (mut bl, br) = poly_split_half(b, chunk);
        let ghost al0 = al.ints();
        let ghost ar0 = ar.ints();
        let ghost bl0 = bl.ints();
        let ghost br0 = br.ints();
        proof {
            assert forall|i: int| #[trigger] get(aa, i) == get(al0, i) + get(ar0, i - h) by {
                assert(get(al0, i) == al.coeff(i));
                if i - h >= 0 {
                    assert(ar.coeff(i - h) == a.coeff(i - h + h));
                } else {
                    assert(get(ar0, i - h) == 0);
                }
            }
            assert forall|i: int| #[trigger] get(bb, i) == get(bl0, i) + get(br0, i - h) by {
                assert(get(bl0, i) == bl.coeff(i));
                if i - h >= 0 {
                    assert(br.coeff(i - h) == b.coeff(i - h + h));
                } else {
                    assert(get(br0, i - h) == 0);
                }
            }
            lemma_len_bound(&ar, (h + 1) as int);
            lemma_len_bound(&br, (h + 1) as int);
        }
        let albl = rec_karatsuba_mul_inner(&al, &bl, h);
        let arbr = rec_karatsuba_mul_inner(&ar, &br, h);
        al.add_assign(&ar);
        bl.add_assign(&br);
        proof {
            assert forall|i: int| #[trigger] get(al.ints(), i) == (get(al0, i) + get(ar0, i)) % q by {
                assert(al.coeff(i) == (get(al0, i) + ar.coeff(i)) % q);
            }
            assert forall|i: int| #[trigger] get(bl.ints(), i) == (get(bl0, i) + get(br0, i)) % q by {
                assert(bl.coeff(i) == (get(bl0, i) + br.coeff(i)) % q);
            }
            assert forall|i: int| i >= h + 1 implies al.coeff(i) == 0 by {
                assert(get(al0, i) == 0);
                assert(ar.coeff(i) == a.coeff(i + h));
                lemma_small_mod(0, q as nat);
            }
            assert forall|i: int| i >= h + 1 implies bl.coeff(i) == 0 by {
                assert(get(bl0, i) == 0);
                assert(br.coeff(i) == b.coeff(i + h));
                lemma_small_mod(0, q as nat);
            }
            lemma_len_bound(&al, (h + 1) as int);
            lemma_len_bound(&bl, (h + 1) as int);
        }
        let mut y = rec_karatsuba_mul_inner(&al, &bl, h);
        res = arbr.new_mul_xn(chunk);
        let ghost res1 = res.ints();
        let ghost y0 = y.ints();
        y.sub_assign(&albl);
        let ghost y1 = y.ints();
        proof {
            assert forall|i: int| #[trigger] get(y1, i) == (get(y0, i) - get(albl.ints(), i)) % q by {
                assert(y.coeff(i) == (get(y0, i) - albl.coeff(i)) % q);
            }
        }
        y.sub_assign(&arbr);
        let ghost y2 = y.ints();
        proof {
            assert forall|i: int| #[trigger] get(y2, i) == (get(y1, i) - get(arbr.ints(), i)) % q by {
                assert(y.coeff(i) == (get(y1, i) - arbr.coeff(i)) % q);
            }
        }
        y.mul_xn(h);
        let ghost y3 = y.ints();
        res.add_assign(&y);
        let ghost res2 = res.ints();
        proof {
            assert forall|i: int| #[trigger] get(res2, i) == (get(res1, i) + get(y3, i)) % q by {
                assert(res.coeff(i) == (get(res1, i) + y.coeff(i)) % q);
            }
        }
        res.add_assign(&albl);
        proof {
            assert forall|i: int| #[trigger] get(res.ints(), i) == (get(res2, i) + get(albl.ints(), i)) % q by {
                assert(res.coeff(i) == (get(res2, i) + albl.coeff(i)) % q);
            }
        }
        proof {
            let p1 = conv_seq(al0, bl0);
            let p3 = conv_seq(ar0, br0);
            let ss = padd(al0, ar0);
            let tt = padd(bl0, br0);
            let z = padd(conv_seq(al0, br0), conv_seq(ar0, bl0));
            let full = padd(padd(shift(p3, chunk as nat), shift(z, h as nat)), p1);
            // Karatsuba's identity, coefficient by coefficient
            assert forall|k: int| #[trigger] get(conv_seq(aa, bb), k) == get(full, k) by {
                lemma_karatsuba_identity(aa, al0, ar0, bb, bl0, br0, h as nat, k);
                lemma_get_conv_seq(aa, bb, k);
                lemma_get_conv_seq(al0, bl0, k);
                lemma_get_conv_seq(ar0, br0, k - chunk);
                lemma_get_conv_seq(al0, br0, k - h);
                lemma_get_conv_seq(ar0, bl0, k - h);
                lemma_get_padd(padd(shift(p3, chunk as nat), shift(z, h as nat)), p1, k);
                lemma_get_padd(shift(p3, chunk as nat), shift(z, h as nat), k);
                lemma_get_shift(p3, chunk as nat, k);
                lemma_get_shift(z, h as nat, k);
                lemma_get_padd(conv_seq(al0, br0), conv_seq(ar0, bl0), k - h);
            }
            assert forall|i: int| #[trigger] get(conv_seq(aa, bb), i) % q == get(full, i) % q by {
                assert(get(conv_seq(aa, bb), i) == get(full, i));
            }
            lemma_ring_seq_cong(conv_seq(aa, bb), full, n, q);
            // the middle product, from the sums of the halves
            assert(cong(al.ints(), ss, q)) by {
                assert forall|i: int| #[trigger] get(al.ints(), i) % q == #[trigger] get(ss, i) % q by {
                    lemma_get_padd(al0, ar0, i);
                    vstd::arithmetic::div_mod::lemma_mod_twice(get(ss, i), q);
                }
            }
            assert(cong(bl.ints(), tt, q)) by {
                assert forall|i: int| #[trigger] get(bl.ints(), i) % q == #[trigger] get(tt, i) % q by {
                    lemma_get_padd(bl0, br0, i);
                    vstd::arithmetic::div_mod::lemma_mod_twice(get(tt, i), q);
                }
            }
            assert forall|k: int| #[trigger] get(conv_seq(al.ints(), bl.ints()), k) % q == #[trigger] get(conv_seq(ss, tt), k) % q by {
                lemma_get_conv_seq(al.ints(), bl.ints(), k);
                lemma_get_conv_seq(ss, tt, k);
                lemma_conv_cong(al.ints(), ss, bl.ints(), tt, q, k);
            }
            lemma_ring_seq_cong(conv_seq(al.ints(), bl.ints()), conv_seq(ss, tt), n, q);
            // y2 represents the middle terms
            let m1 = psub(conv_seq(ss, tt), p1);
            let m2 = psub(m1, p3);
            assert forall|i: int| #[trigger] get(y1, i) % q == get(psub(y0, albl.ints()), i) % q by {
                lemma_get_psub(y0, albl.ints(), i);
                vstd::arithmetic::div_mod::lemma_mod_twice(get(psub(y0, albl.ints()), i), q);
            }
            lemma_ring_seq_cong(y1, psub(y0, albl.ints()), n, q);
            assert forall|i: int| #[trigger] get(psub(y0, albl.ints()), i) == get(y0, i) - get(albl.ints(), i) by {
                lemma_get_psub(y0, albl.ints(), i);
            }
            assert forall|i: int| #[trigger] get(m1, i) == get(conv_seq(ss, tt), i) - get(p1, i) by {
                lemma_get_psub(conv_seq(ss, tt), p1, i);
            }
            lemma_ring_sub_cong(psub(y0, albl.ints()), y0, albl.ints(), m1, conv_seq(ss, tt), p1, n, q);
            assert forall|i: int| #[trigger] get(y2, i) % q == get(psub(y1, arbr.ints()), i) % q by {
                lemma_get_psub(y1, arbr.ints(), i);
                vstd::arithmetic::div_mod::lemma_mod_twice(get(psub(y1, arbr.ints()), i), q);
            }
            lemma_ring_seq_cong(y2, psub(y1, arbr.ints()), n, q);
            assert forall|i: int| #[trigger] get(psub(y1, arbr.ints()), i) == get(y1, i) - get(arbr.ints(), i) by {
                lemma_get_psub(y1, arbr.ints(), i);
            }
            assert forall|i: int| #[trigger] get(m2, i) == get(m1, i) - get(p3, i) by {
                lemma_get_psub(m1, p3, i);
            }
            lemma_ring_sub_cong(psub(y1, arbr.ints()), y1, arbr.ints(), m2, m1, p3, n, q);
            assert forall|k: int| #[trigger] get(m2, k) % q == get(z, k) % q by {
                lemma_karatsuba_identity(aa, al0, ar0, bb, bl0, br0, h as nat, k);
                lemma_get_psub(m1, p3, k);
                lemma_get_psub(conv_seq(ss, tt), p1, k);
                lemma_get_conv_seq(ss, tt, k);
                lemma_get_conv_seq(al0, bl0, k);
                lemma_get_conv_seq(ar0, br0, k);
                lemma_get_conv_seq(al0, br0, k);
                lemma_get_conv_seq(ar0, bl0, k);
                lemma_get_padd(conv_seq(al0, br0), conv_seq(ar0, bl0), k);
            }
            lemma_ring_seq_cong(m2, z, n, q);
            // shifts
            lemma_ring_shift_cong(y2, z, h as nat, n, q);
            lemma_ring_shift_cong(arbr.ints(), p3, chunk as nat, n, q);
            // the sums
            assert forall|i: int| #[trigger] get(res2, i) % q == get(padd(res1, y3), i) % q by {
                lemma_get_padd(res1, y3, i);
                vstd::arithmetic::div_mod::lemma_mod_twice(get(padd(res1, y3), i), q);
            }
            lemma_ring_seq_cong(res2, padd(res1, y3), n, q);
            assert forall|i: int| #[trigger] get(padd(res1, y3), i) == get(res1, i) + get(y3, i) by {
                lemma_get_padd(res1, y3, i);
            }
            let sh = padd(shift(p3, chunk as nat), shift(z, h as nat));
            assert forall|i: int| #[trigger] get(sh, i) == get(shift(p3, chunk as nat), i) + get(shift(z, h as nat), i) by {
                lemma_get_padd(shift(p3, chunk as nat), shift(z, h as nat), i);
            }
            lemma_ring_add_cong(padd(res1, y3), res1, y3, sh, shift(p3, chunk as nat), shift(z, h as nat), n, q);
            assert forall|i: int| #[trigger] get(res.ints(), i) % q == get(padd(res2, albl.ints()), i) % q by {
                lemma_get_padd(res2, albl.ints(), i);
                vstd::arithmetic::div_mod::lemma_mod_twice(get(padd(res2, albl.ints()), i), q);
            }
            lemma_ring_seq_cong(res.ints(), padd(res2, albl.ints()), n, q);
            assert forall|i: int| #[trigger] get(padd(res2, albl.ints()), i) == get(res2, i) + get(albl.ints(), i) by {
                lemma_get_padd(res2, albl.ints(), i);
            }
            assert forall|i: int| #[trigger] get(full, i) == get(sh, i) + get(p1, i) by {
                lemma_get_padd(sh, p1, i);
            }
            lemma_ring_add_cong(padd(res2, albl.ints()), res2, albl.ints(), full, sh, p1, n, q);
        }
    }
    res.reduce_mod_poly();
    res
}

} // verus!
