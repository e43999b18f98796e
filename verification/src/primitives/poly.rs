//! Cyclotomic polynomials in `Z_q[X] / (X^N + 1)`.
//!
//! A [`Poly`] stores coefficients from the constant term `X^0` upwards, each reduced modulo `q`.
//! In its canonical form it has fewer than `N` coefficients and no leading zero; the zero
//! polynomial has no coefficients at all. Operations that can leave a polynomial outside this form
//! say so, and [`Poly::reduce_mod_poly`] or [`Poly::truncate_to_canonical_form`] restore it.
use core::marker::PhantomData;
use vstd::arithmetic::div_mod::*;
use vstd::prelude::*;

use crate::primitives::field::{add_mod, sub_mod};
use crate::primitives::field::modulus_ok;
use crate::primitives::poly::algebra::{
    canonical, coeffs_reduced, trimmed, dense, fold_upto, get, ints, lemma_canonical_ring_seq,
    lemma_canonical_unique, lemma_fold_past_end, lemma_fold_short, lemma_fold_step,
    lemma_fold_sub, lemma_get_shift, lemma_ring_seq_cong, lemma_ring_shift_cong,
    lemma_ring_split_at, ring_coeff, ring_seq, shift, wrap_sign,
};
use crate::primitives::poly::conf::PolyConf;

pub mod algebra;
pub mod bezout;
pub mod conf;
pub mod division;
pub mod divides;
pub mod fq;
pub mod fq79u64x2;
pub mod fq8;
pub mod inv;
pub mod map;
pub mod modulus;
pub mod mul;
pub mod reduce;
pub mod ring;
pub mod trivial;

/// The fastest available reduction by the polynomial modulus.
pub use self::mod_poly_manual_mut as mod_poly;

verus! {

/// A modular polynomial with coefficients modulo [`PolyConf::modulus`], in the ring
/// `Z_q[X] / (X^N + 1)` with `N` = [`PolyConf::max_poly_degree`].
#[derive(Debug)]
pub struct Poly<C: PolyConf> {
    /// The coefficients, from the constant term upwards.
    pub coeffs: Vec<u128>,
    /// Binds the configuration to the polynomial type.
    pub conf: PhantomData<C>,
}

impl<C: PolyConf> Clone for Poly<C> {
    fn clone(&self) -> (r: Self)
        ensures
            r.coeffs@ == self.coeffs@,
    {
        self.duplicate()
    }
}

impl<C: PolyConf> Poly<C> {
    /// The stored coefficients, read as integers.
    pub open spec fn ints(&self) -> Seq<int> {
        ints(self.coeffs@)
    }

    /// Every stored coefficient is reduced modulo `q`.
    pub open spec fn wf(&self) -> bool {
        coeffs_reduced(self.coeffs@, C::spec_modulus())
    }

    /// The polynomial is in its canonical form.
    pub open spec fn is_canonical(&self) -> bool {
        canonical(self.coeffs@, C::spec_max_poly_degree(), C::spec_modulus())
    }

    /// The ring element this polynomial represents: its `N` coefficients in `[0, q)` after
    /// folding with `X^N = -1`.
    pub open spec fn ring(&self) -> Seq<int> {
        ring_seq(self.ints(), C::spec_max_poly_degree(), C::spec_modulus())
    }

    /// The first `N` coefficients, padded with zeroes.
    pub open spec fn dense(&self) -> Seq<int> {
        dense(self.ints(), C::spec_max_poly_degree())
    }

    /// The coefficient of `X^i` (zero past the stored coefficients).
    pub open spec fn coeff(&self, i: int) -> int {
        get(self.ints(), i)
    }

    /// A canonical polynomial represents its own dense coefficients.
    pub proof fn lemma_canonical_ring(&self)
        requires
            self.is_canonical(),
        ensures
            self.ring() == self.dense(),
    {
        C::lemma_conf_valid();
        lemma_canonical_ring_seq(self.coeffs@, C::spec_max_poly_degree(), C::spec_modulus());
    }

    /// Two canonical polynomials that represent the same ring element are equal.
    pub proof fn lemma_canonical_eq(&self, other: &Self)
        requires
            self.is_canonical(),
            other.is_canonical(),
            self.ring() == other.ring(),
        ensures
            self.coeffs@ == other.coeffs@,
    {
        self.lemma_canonical_ring();
        other.lemma_canonical_ring();
        lemma_canonical_unique(self.coeffs@, other.coeffs@, C::spec_max_poly_degree(), C::spec_modulus());
    }

    /// The zero polynomial, with no coefficients.
    pub fn zero() -> (r: Self)
        ensures
            r.is_canonical(),
            r.coeffs@ == Seq::<u128>::empty(),
    {
        Poly { coeffs: Vec::new(), conf: PhantomData }
    }

    /// Returns true if this is the zero polynomial in canonical form.
    pub fn is_zero(&self) -> (r: bool)
        ensures
            r == (self.coeffs@.len() == 0),
    {
        self.coeffs.len() == 0
    }

    /// Returns true if the polynomial is in canonical form: at most `N` coefficients, each
    /// reduced modulo `q`, and no leading zero.
    pub fn is_canonical_exec(&self) -> (r: bool)
        ensures
            r == self.is_canonical(),
    {
        let n = C::max_poly_degree();
        let q = C::modulus();
        let len = self.coeffs.len();
        if len > n {
            return false;
        }
        if len > 0 && self.coeffs[len - 1] == 0 {
            return false;
        }
        let mut i: usize = 0;
        while i < len
            invariant
                i <= len,
                len == self.coeffs@.len(),
                q == C::spec_modulus(),
                forall|j: int| 0 <= j < i ==> (#[trigger] self.coeffs@[j] as int) < q,
            decreases len - i,
        {
            if self.coeffs[i] >= q {
                return false;
            }
            i += 1;
        }
        true
    }

    /// The constant polynomial `1`.
    pub fn one() -> (r: Self)
        ensures
            r.is_canonical(),
            r.coeffs@ == seq![1u128],
    {
        proof {
            C::lemma_conf_valid();
        }
        let mut coeffs = Vec::new();
        coeffs.push(1u128);
        Poly { coeffs, conf: PhantomData }
    }

    /// Returns true if this is the constant polynomial `1` in canonical form.
    pub fn is_one(&self) -> (r: bool)
        ensures
            r == (self.coeffs@ == seq![1u128]),
    {
        let r = self.coeffs.len() == 1 && self.coeffs[0] == 1;
        proof {
            if self.coeffs@.len() == 1 && self.coeffs@[0] == 1 {
                assert(self.coeffs@ =~= seq![1u128]);
            }
        }
        r
    }

    /// Sets this polynomial to `1`.
    pub fn set_one(&mut self)
        ensures
            final(self).coeffs@ == seq![1u128],
    {
        let mut coeffs = Vec::new();
        coeffs.push(1u128);
        self.coeffs = coeffs;
    }

    /// Returns a new polynomial of `n` zero coefficients.
    /// This is *not* the canonical form.
    pub fn non_canonical_zeroes(n: usize) -> (r: Self)
        ensures
            r.coeffs@ == Seq::new(n as nat, |i: int| 0u128),
            r.wf(),
    {
        let mut coeffs = Vec::new();
        let mut i: usize = 0;
        while i < n
            invariant
                i <= n,
                coeffs@ == Seq::new(i as nat, |j: int| 0u128),
            decreases n - i,
        {
            coeffs.push(0u128);
            i += 1;
            assert(coeffs@ =~= Seq::new(i as nat, |j: int| 0u128));
        }
        proof {
            C::lemma_conf_valid();
        }
        Poly { coeffs, conf: PhantomData }
    }

    /// Removes leading zero coefficients, so that a polynomial with fewer than `N` coefficients
    /// is in its canonical form. The represented ring element does not change.
    pub fn truncate_to_canonical_form(&mut self)
        ensures
            final(self).coeffs@ == old(self).coeffs@.take(final(self).coeffs@.len() as int),
            final(self).coeffs@.len() <= old(self).coeffs@.len(),
            final(self).coeffs@.len() > 0 ==> final(self).coeffs@.last() != 0,
            forall|i: int|
                final(self).coeffs@.len() <= i < old(self).coeffs@.len() ==> old(self).coeffs@[i] == 0,
            final(self).dense() == old(self).dense(),
            final(self).ring() == old(self).ring(),
            old(self).wf() ==> final(self).wf(),
            old(self).wf() && old(self).coeffs@.len() <= C::spec_max_poly_degree() ==> final(self).is_canonical(),
    {
        let ghost orig = self.coeffs@;
        while self.coeffs.len() > 0 && self.coeffs[self.coeffs.len() - 1] == 0
            invariant
                self.coeffs@ == orig.take(self.coeffs@.len() as int),
                self.coeffs@.len() <= orig.len(),
                forall|i: int| self.coeffs@.len() <= i < orig.len() ==> orig[i] == 0,
            decreases self.coeffs@.len(),
        {
            self.coeffs.pop();
        }
        proof {
            C::lemma_conf_valid();
            assert forall|i: int| #[trigger] get(ints(orig), i) % C::spec_modulus() == get(ints(self.coeffs@), i) % C::spec_modulus() by {
                assert(get(ints(orig), i) == get(ints(self.coeffs@), i));
            }
            lemma_ring_seq_cong(ints(orig), ints(self.coeffs@), C::spec_max_poly_degree(), C::spec_modulus());
            assert(self.dense() =~= dense(ints(orig), C::spec_max_poly_degree()));
        }
    }

    /// A copy of this polynomial with the same coefficients.
    pub fn duplicate(&self) -> (r: Self)
        ensures
            r.coeffs@ == self.coeffs@,
    {
        let coeffs = self.coeffs.clone();
        assert(coeffs@ =~= self.coeffs@);
        Poly { coeffs, conf: PhantomData }
    }

    /// The coefficient of `X^index`: a stored coefficient, or zero for a virtual leading zero
    /// up to `X^N`. Reading past `X^N` beyond the stored coefficients is refused.
    pub fn index(&self, index: usize) -> (r: u128)
        requires
            index < self.coeffs@.len() || index <= C::spec_max_poly_degree(),
        ensures
            r == self.coeff(index as int),
    {
        if index < self.coeffs.len() {
            self.coeffs[index]
        } else {
            0
        }
    }

    /// The coefficient of `X^index`, for writing: missing coefficients up to `index` are stored
    /// as zeroes first, so that any coefficient can be set. The caller restores the canonical
    /// form afterwards (see [`Poly::reduce_mod_poly`]).
    pub fn index_mut(&mut self, index: usize) -> (r: &mut u128)
        requires
            index < usize::MAX,
        ensures
            *r == old(self).coeff(index as int),
            final(self).coeffs@.len() == if index < old(self).coeffs@.len() {
                old(self).coeffs@.len()
            } else {
                (index + 1) as nat
            },
            forall|i: int|
                0 <= i < final(self).coeffs@.len() && i != index ==> #[trigger] final(self).coeffs@[i] == old(self).coeff(i),
            final(self).coeffs@[index as int] == *final(r),
    {
        let ghost orig = self.coeffs@;
        while self.coeffs.len() <= index
            invariant
                orig.len() <= self.coeffs@.len() <= index + 1 || self.coeffs@.len() == orig.len(),
                forall|i: int| 0 <= i < orig.len() ==> #[trigger] self.coeffs@[i] == orig[i],
                forall|i: int| orig.len() <= i < self.coeffs@.len() ==> #[trigger] self.coeffs@[i] == 0,
                self.coeffs@.len() >= orig.len(),
                orig.len() <= index ==> self.coeffs@.len() <= index + 1,
                index < usize::MAX,
            decreases index + 1 - self.coeffs@.len(),
        {
            self.coeffs.push(0);
        }
        &mut self.coeffs[index]
    }

    /// A short polynomial with reduced coefficients represents its own dense coefficients.
    pub proof fn lemma_short_ring(&self)
        requires
            self.wf(),
            self.coeffs@.len() <= C::spec_max_poly_degree(),
        ensures
            self.ring() == self.dense(),
    {
        C::lemma_conf_valid();
        lemma_canonical_ring_seq(self.coeffs@, C::spec_max_poly_degree(), C::spec_modulus());
    }

    /// Converts the `coeffs` vector into a polynomial in canonical, reduced form.
    pub fn from_coefficients_vec(coeffs: Vec<u128>) -> (r: Self)
        requires
            coeffs_reduced(coeffs@, C::spec_modulus()),
        ensures
            r.is_canonical(),
            r.ring() == ring_seq(ints(coeffs@), C::spec_max_poly_degree(), C::spec_modulus()),
            coeffs@.len() <= C::spec_max_poly_degree() ==> forall|i: int| r.coeff(i) == get(ints(coeffs@), i),
    {
        let mut r = Poly { coeffs, conf: PhantomData };
        r.reduce_mod_poly();
        proof {
            if coeffs@.len() <= C::spec_max_poly_degree() {
                let v = Poly::<C> { coeffs, conf: PhantomData };
                r.lemma_canonical_ring();
                v.lemma_short_ring();
                assert forall|i: int| r.coeff(i) == get(ints(coeffs@), i) by {
                    if 0 <= i < C::spec_max_poly_degree() {
                        assert(r.dense()[i] == v.dense()[i]);
                    }
                }
            }
        }
        r
    }

    /// Converts the `coeffs` slice into a polynomial in canonical, reduced form.
    pub fn from_coefficients_slice(coeffs: &[u128]) -> (r: Self)
        requires
            coeffs_reduced(coeffs@, C::spec_modulus()),
        ensures
            r.is_canonical(),
            r.ring() == ring_seq(ints(coeffs@), C::spec_max_poly_degree(), C::spec_modulus()),
            coeffs@.len() <= C::spec_max_poly_degree() ==> forall|i: int| r.coeff(i) == get(ints(coeffs@), i),
    {
        let mut v: Vec<u128> = Vec::new();
        let mut i: usize = 0;
        while i < coeffs.len()
            invariant
                i <= coeffs@.len(),
                v@ == coeffs@.take(i as int),
            decreases coeffs@.len() - i,
        {
            v.push(coeffs[i]);
            i += 1;
            assert(v@ =~= coeffs@.take(i as int));
        }
        assert(v@ =~= coeffs@);
        Self::from_coefficients_vec(v)
    }

    /// The coefficients `self[lo..hi]`, as a polynomial in canonical, reduced form.
    fn from_coefficients_range(&self, lo: usize, hi: usize) -> (r: Self)
        requires
            self.wf(),
            lo <= hi <= self.coeffs@.len(),
        ensures
            r.is_canonical(),
            r.ring() == ring_seq(self.ints().subrange(lo as int, hi as int), C::spec_max_poly_degree(), C::spec_modulus()),
            hi - lo <= C::spec_max_poly_degree() ==> forall|i: int| r.coeff(i) == (if 0 <= i < hi - lo { self.coeff(i + lo) } else { 0 }),
    {
        let mut v: Vec<u128> = Vec::new();
        let mut i: usize = lo;
        while i < hi
            invariant
                lo <= i <= hi,
                hi <= self.coeffs@.len(),
                v@ == self.coeffs@.subrange(lo as int, i as int),
            decreases hi - i,
        {
            v.push(self.coeffs[i]);
            i += 1;
            assert(v@ =~= self.coeffs@.subrange(lo as int, i as int));
        }
        assert(ints(v@) =~= self.ints().subrange(lo as int, hi as int));
        Self::from_coefficients_vec(v)
    }

    /// Divides `self` by `X^n`, and returns a newly allocated `(quotient, remainder)`.
    pub fn new_div_xn(&self, n: usize) -> (r: (Self, Self))
        requires
            self.wf(),
        ensures
            r.0.is_canonical(),
            r.1.wf(),
            n <= self.coeffs@.len() ==> r.1.is_canonical(),
            self.coeffs@.len() <= n + C::spec_max_poly_degree() ==> forall|i: int| i >= 0 ==> r.0.coeff(i) == self.coeff(i + n),
            n <= C::spec_max_poly_degree() ==> forall|i: int| r.1.coeff(i) == (if i < n { self.coeff(i) } else { 0 }),
            n <= C::spec_max_poly_degree() ==> r.1.coeffs@.len() <= n,
            trimmed(self.coeffs@) ==> trimmed(r.1.coeffs@),
            n <= self.coeffs@.len() ==> r.0.ring() == ring_seq(
                self.ints().subrange(n as int, self.coeffs@.len() as int),
                C::spec_max_poly_degree(),
                C::spec_modulus(),
            ) && r.1.ring() == ring_seq(self.ints().subrange(0, n as int), C::spec_max_poly_degree(), C::spec_modulus()),
            n > self.coeffs@.len() ==> r.0.coeffs@.len() == 0 && r.1.coeffs@ == self.coeffs@,
            self.is_canonical() ==> r.1.is_canonical(),
            forall|k: int|
                0 <= k < C::spec_max_poly_degree() ==> #[trigger] self.ring()[k] == (ring_seq(
                    shift(r.0.ints(), n as nat),
                    C::spec_max_poly_degree(),
                    C::spec_modulus(),
                )[k] + r.1.ring()[k]) % C::spec_modulus(),
    {
        proof {
            C::lemma_conf_valid();
        }
        if n <= self.coeffs.len() {
            let quotient = self.from_coefficients_range(n, self.coeffs.len());
            let remainder = self.from_coefficients_range(0, n);
            proof {
                if n <= C::spec_max_poly_degree() && remainder.coeffs@.len() > n {
                    assert(remainder.coeff(remainder.coeffs@.len() - 1) == 0);
                }
                let nn = C::spec_max_poly_degree();
                let q = C::spec_modulus();
                let s = self.ints();
                lemma_ring_split_at(s, n as nat, nn, q);
                lemma_ring_shift_cong(quotient.ints(), s.subrange(n as int, s.len() as int), n as nat, nn, q);
            }
            (quotient, remainder)
        } else {
            let quotient = Self::zero();
            let remainder = self.duplicate();
            proof {
                let nn = C::spec_max_poly_degree();
                let q = C::spec_modulus();
                let z = shift(quotient.ints(), n as nat);
                assert forall|k: int| 0 <= k < nn implies #[trigger] self.ring()[k] == (ring_seq(z, nn, q)[k]
                    + remainder.ring()[k]) % q by {
                    let e = Seq::<int>::empty();
                    assert forall|i: int| #[trigger] get(z, i) == get(e, i) - get(e, i) by {}
                    lemma_fold_sub(z, e, e, nn as int, k, z.len() as int);
                    assert(remainder.ints() == self.ints());
                    lemma_small_mod(self.ring()[k] as nat, q as nat);
                }
            }
            (quotient, remainder)
        }
    }

    /// Returns `self * X^n`, reduced by `X^N + 1`.
    pub fn new_mul_xn(&self, n: usize) -> (r: Self)
        requires
            self.wf(),
            n + self.coeffs@.len() <= usize::MAX,
        ensures
            r.is_canonical(),
            r.ring() == ring_seq(shift(self.ints(), n as nat), C::spec_max_poly_degree(), C::spec_modulus()),
    {
        let len = self.coeffs.len();
        let mut res = Self::non_canonical_zeroes(n);
        let mut i: usize = 0;
        while i < len
            invariant
                i <= len,
                len == self.coeffs@.len(),
                self.wf(),
                res.wf(),
                res.coeffs@ == Seq::new(n as nat, |j: int| 0u128) + self.coeffs@.take(i as int),
            decreases len - i,
        {
            res.coeffs.push(self.coeffs[i]);
            i += 1;
            assert(res.coeffs@ =~= Seq::new(n as nat, |j: int| 0u128) + self.coeffs@.take(i as int));
        }
        proof {
            assert(res.ints() =~= shift(self.ints(), n as nat));
        }
        res.reduce_mod_poly();
        res
    }

    /// Multiplies `self` by `X^n`, then reduces by `X^N + 1`.
    pub fn mul_xn(&mut self, n: usize)
        requires
            old(self).wf(),
            n + old(self).coeffs@.len() <= usize::MAX,
        ensures
            final(self).is_canonical(),
            final(self).ring() == ring_seq(shift(old(self).ints(), n as nat), C::spec_max_poly_degree(), C::spec_modulus()),
    {
        *self = self.new_mul_xn(n);
    }

    /// Returns `X^n`, reduced by `X^N + 1`.
    pub fn xn(n: usize) -> (r: Self)
        requires
            n < usize::MAX,
        ensures
            r.is_canonical(),
            r.ring() == ring_seq(shift(seq![1int], n as nat), C::spec_max_poly_degree(), C::spec_modulus()),
    {
        proof {
            C::lemma_conf_valid();
        }
        let one = Self::one();
        assert(one.ints() =~= seq![1int]);
        one.new_mul_xn(n)
    }

    /// Divides `self` by `X^n`, and returns `(quotient, remainder)`, reusing `self` for the
    /// remainder.
    pub fn div_xn(self, n: usize) -> (r: (Self, Self))
        requires
            self.wf(),
        ensures
            r.0.is_canonical(),
            r.1.wf(),
            n <= self.coeffs@.len() ==> r.1.is_canonical(),
            self.coeffs@.len() <= n + C::spec_max_poly_degree() ==> forall|i: int| i >= 0 ==> r.0.coeff(i) == self.coeff(i + n),
            n <= C::spec_max_poly_degree() ==> forall|i: int| r.1.coeff(i) == (if i < n { self.coeff(i) } else { 0 }),
            n <= C::spec_max_poly_degree() ==> r.1.coeffs@.len() <= n,
            trimmed(self.coeffs@) ==> trimmed(r.1.coeffs@),
            n <= self.coeffs@.len() ==> r.0.ring() == ring_seq(
                self.ints().subrange(n as int, self.coeffs@.len() as int),
                C::spec_max_poly_degree(),
                C::spec_modulus(),
            ) && r.1.ring() == ring_seq(self.ints().subrange(0, n as int), C::spec_max_poly_degree(), C::spec_modulus()),
            n > self.coeffs@.len() ==> r.0.coeffs@.len() == 0 && r.1.coeffs@ == self.coeffs@,
            self.is_canonical() ==> r.1.is_canonical(),
            forall|k: int|
                0 <= k < C::spec_max_poly_degree() ==> #[trigger] self.ring()[k] == (ring_seq(
                    shift(r.0.ints(), n as nat),
                    C::spec_max_poly_degree(),
                    C::spec_modulus(),
                )[k] + r.1.ring()[k]) % C::spec_modulus(),
    {
        self.new_div_xn(n)
    }

    /// Splitting a canonical polynomial by `X^n` and putting it back together gives it again:
    /// with `(quo, rem)` from [`Poly::div_xn`], `back` the product `quo * X^n` from
    /// [`Poly::new_mul_xn`] and `sum` the sum `back + rem` from `add`, `sum` is `p`.
    pub proof fn lemma_div_xn_round_trip(p: Self, quo: Self, rem: Self, back: Self, sum: Self, n: nat)
        requires
            p.is_canonical(),
            rem.is_canonical(),
            forall|k: int|
                0 <= k < C::spec_max_poly_degree() ==> #[trigger] p.ring()[k] == (ring_seq(
                    shift(quo.ints(), n),
                    C::spec_max_poly_degree(),
                    C::spec_modulus(),
                )[k] + rem.ring()[k]) % C::spec_modulus(),
            back.is_canonical(),
            back.ring() == ring_seq(shift(quo.ints(), n), C::spec_max_poly_degree(), C::spec_modulus()),
            sum.is_canonical(),
            forall|i: int| #[trigger] sum.coeff(i) == (back.coeff(i) + rem.coeff(i)) % C::spec_modulus(),
        ensures
            sum.coeffs@ == p.coeffs@,
    {
        C::lemma_conf_valid();
        p.lemma_canonical_ring();
        rem.lemma_canonical_ring();
        back.lemma_canonical_ring();
        sum.lemma_canonical_ring();
        assert forall|k: int| 0 <= k < C::spec_max_poly_degree() implies sum.ring()[k] == p.ring()[k] by {
            assert(sum.dense()[k] == sum.coeff(k));
            assert(back.dense()[k] == back.coeff(k));
            assert(rem.dense()[k] == rem.coeff(k));
        }
        assert(sum.ring() =~= p.ring());
        sum.lemma_canonical_eq(&p);
    }

    /// Reduces this polynomial by the polynomial modulus `X^N + 1`, leaving it in canonical form.
    /// The represented ring element does not change.
    pub fn reduce_mod_poly(&mut self)
        requires
            old(self).wf(),
        ensures
            final(self).is_canonical(),
            final(self).ring() == old(self).ring(),
    {
        mod_poly_manual_mut(self);
    }
}

/// Reduces `dividend` by the polynomial modulus `X^N + 1`: every coefficient of `X^i` with
/// `i >= N` is folded into `X^(i mod N)`, negated when `i / N` is odd, then leading zeroes are
/// removed.
pub fn mod_poly_manual_mut<C: PolyConf>(dividend: &mut Poly<C>)
    requires
        old(dividend).wf(),
    ensures
        final(dividend).is_canonical(),
        final(dividend).ring() == old(dividend).ring(),
{
    proof {
        C::lemma_conf_valid();
    }
    let n = C::max_poly_degree();
    let q = C::modulus();
    let ghost nn = n as int;
    let ghost qq = q as int;
    let ghost orig = dividend.ints();
    let len = dividend.coeffs.len();
    if len > n {
        let mut i = n;
        proof {
            assert forall|r: int| 0 <= r < n implies dividend.coeffs@[r] as int == fold_upto(orig, nn, r, i as int) % (q as int) by {
                assert(fold_upto(orig, nn, r + nn, nn) == 0);
                lemma_small_mod(orig[r] as nat, q as nat);
            }
        }
        while i < len
            invariant
                n <= i <= len,
                len == dividend.coeffs@.len(),
                n == C::spec_max_poly_degree(),
                q == C::spec_modulus(),
                modulus_ok(q as int),
                n > 0,
                qq == q,
                nn == n,
                orig == old(dividend).ints(),
                orig.len() == len,
                dividend.wf(),
                forall|r: int| 0 <= r < n ==> dividend.coeffs@[r] as int == fold_upto(orig, nn, r, i as int) % (q as int),
                forall|j: int| n <= j < len ==> dividend.coeffs@[j] as int == orig[j],
            decreases len - i,
        {
            let wraps = i / n;
            let r = i % n;
            proof {
                lemma_fundamental_div_mod(i as int, n as int);
                assert forall|r2: int| 0 <= r2 < n && r2 != r implies #[trigger] ((i - r2) % nn) != 0 by {
                    if (i - r2) % nn == 0 {
                        lemma_fundamental_div_mod(i - r2, nn);
                        let t = (i - r2) / nn;
                        assert(r - r2 == nn * (t - wraps)) by (nonlinear_arith)
                            requires i - r2 == nn * t, i == nn * wraps + r;
                        if t - wraps > 0 {
                            assert(nn * (t - wraps) >= nn) by (nonlinear_arith) requires t - wraps > 0, nn > 0;
                        } else if t - wraps < 0 {
                            assert(nn * (t - wraps) <= -nn) by (nonlinear_arith) requires t - wraps < 0, nn > 0;
                        }
                    }
                }
                assert((i - r) % nn == 0 && (i - r) / nn == wraps) by {
                    lemma_fundamental_div_mod_converse(i - r, nn, wraps as int, 0);
                }
                assert forall|r2: int| 0 <= r2 < n implies fold_upto(orig, nn, r2, i + 1) == fold_upto(orig, nn, r2, i as int) + (
                    if r2 == r { wrap_sign(wraps as int) * orig[i as int] } else { 0 }) by {
                    lemma_fold_step(orig, nn, r2, i as int);
                }
            }
            let ci = dividend.coeffs[i];
            let cr = dividend.coeffs[r];
            let updated = if wraps % 2 == 1 {
                sub_mod(cr, ci, q)
            } else {
                add_mod(cr, ci, q)
            };
            proof {
                let f = fold_upto(orig, nn, r as int, i as int);
                if wraps % 2 == 1 {
                    lemma_sub_mod_noop(f, ci as int, qq);
                    lemma_small_mod(ci as nat, q as nat);
                } else {
                    lemma_add_mod_noop(f, ci as int, qq);
                    lemma_small_mod(ci as nat, q as nat);
                }
            }
            dividend.coeffs.set(r, updated);
            i += 1;
        }
        dividend.coeffs.truncate(n);
        proof {
            assert forall|r: int| 0 <= r < n implies #[trigger] ring_coeff(orig, n as nat, qq, r) == get(dividend.ints(), r) by {
                lemma_fold_past_end(orig, nn, r, len as int);
            }
        }
    } else {
        proof {
            assert forall|r: int| 0 <= r < n implies #[trigger] ring_coeff(orig, n as nat, qq, r) == get(dividend.ints(), r) by {
                lemma_fold_short(orig, nn, r);
                if r < len {
                    lemma_small_mod(orig[r] as nat, q as nat);
                } else {
                    lemma_small_mod(0, q as nat);
                }
            }
        }
    }
    let ghost before = dividend.dense();
    dividend.truncate_to_canonical_form();
    proof {
        dividend.lemma_canonical_ring();
        assert(dividend.ring() =~= old(dividend).ring());
    }
}

} // verus!
