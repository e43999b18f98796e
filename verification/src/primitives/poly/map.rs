//! Coefficient-wise maps of polynomials.
use vstd::prelude::*;

use crate::primitives::poly::algebra::{ints, ring_seq, trimmed};
use crate::primitives::poly::conf::PolyConf;
use crate::primitives::poly::Poly;

verus! {

impl<C: PolyConf> Poly<C> {
    /// Returns the coefficients of `self` as a mutable slice. After changing them, callers bring
    /// the polynomial back to its canonical form, with [`Poly::reduce_mod_poly`] if the degree
    /// could have increased, or [`Poly::truncate_to_canonical_form`] if only coefficients could
    /// have become zero.
    pub fn coeffs_mut(&mut self) -> (r: &mut [u128])
        ensures
            r@ == old(self).coeffs@,
            final(self).coeffs@ == final(r)@,
    {
        self.coeffs.as_mut_slice()
    }

    /// Applies `f_zero_to_zero` to the non-zero coefficients of `self`, skipping all zero
    /// coefficients, then truncates the polynomial to its canonical form.
    ///
    /// `f_zero_to_zero` maps zero to zero (but non-zero inputs may be mapped to zero), and
    /// reduced coefficients to reduced coefficients.
    pub fn coeffs_modify_non_zero<F: Fn(u128) -> u128>(&mut self, f_zero_to_zero: F)
        requires
            old(self).wf(),
            forall|x: u128| (x as int) < C::spec_modulus() ==> #[trigger] f_zero_to_zero.requires((x,)),
            forall|x: u128, y: u128|
                (x as int) < C::spec_modulus() && #[trigger] f_zero_to_zero.ensures((x,), y) ==> (y as int) < C::spec_modulus(),
            forall|y: u128| #[trigger] f_zero_to_zero.ensures((0u128,), y) ==> y == 0,
        ensures
            final(self).wf(),
            trimmed(final(self).coeffs@),
            final(self).coeffs@.len() <= old(self).coeffs@.len(),
            forall|i: int|
                0 <= i < old(self).coeffs@.len() ==> if old(self).coeffs@[i] == 0 {
                    final(self).coeff(i) == 0
                } else {
                    f_zero_to_zero.ensures((old(self).coeffs@[i],), final(self).coeff(i) as u128)
                },
    {
        let len = self.coeffs.len();
        let ghost orig = self.coeffs@;
        let mut i: usize = 0;
        while i < len
            invariant
                i <= len,
                len == self.coeffs@.len(),
                orig.len() == len,
                orig == old(self).coeffs@,
                self.wf(),
                forall|x: u128| (x as int) < C::spec_modulus() ==> #[trigger] f_zero_to_zero.requires((x,)),
                forall|x: u128, y: u128|
                    (x as int) < C::spec_modulus() && #[trigger] f_zero_to_zero.ensures((x,), y) ==> (y as int)
                        < C::spec_modulus(),
                forall|j: int| i <= j < len ==> self.coeffs@[j] == orig[j],
                forall|j: int|
                    0 <= j < i ==> if orig[j] == 0 {
                        self.coeffs@[j] == 0
                    } else {
                        f_zero_to_zero.ensures((orig[j],), self.coeffs@[j])
                    },
            decreases len - i,
        {
            let c = self.coeffs[i];
            if c != 0 {
                let v = f_zero_to_zero(c);
                self.coeffs.set(i, v);
            }
            i += 1;
        }
        let ghost before = self.coeffs@;
        self.truncate_to_canonical_form();
        proof {
            assert forall|j: int| 0 <= j < orig.len() implies self.coeff(j) as u128 == before[j] by {
                if j >= self.coeffs@.len() {
                    assert(before[j] == 0);
                }
            }
        }
    }

    /// Applies `f` to all `N` coefficients of `self`, including leading zeroes, then truncates the
    /// polynomial to its canonical form. `f` maps reduced coefficients to reduced coefficients.
    pub fn coeffs_modify_include_zero<F: Fn(u128) -> u128>(&mut self, f: F)
        requires
            old(self).wf(),
            old(self).coeffs@.len() <= C::spec_max_poly_degree(),
            forall|x: u128| (x as int) < C::spec_modulus() ==> #[trigger] f.requires((x,)),
            forall|x: u128, y: u128| (x as int) < C::spec_modulus() && #[trigger] f.ensures((x,), y) ==> (y as int) < C::spec_modulus(),
        ensures
            final(self).is_canonical(),
            forall|i: int|
                0 <= i < C::spec_max_poly_degree() ==> #[trigger] f.ensures((old(self).coeff(i) as u128,), final(self).coeff(i) as u128),
    {
        proof {
            C::lemma_conf_valid();
        }
        let n = C::max_poly_degree();
        let ghost orig = *self;
        let mut coeffs: Vec<u128> = Vec::new();
        let mut i: usize = 0;
        while i < n
            invariant
                i <= n,
                n == C::spec_max_poly_degree(),
                orig == *old(self),
                orig.wf(),
                self.coeffs@ == orig.coeffs@,
                forall|x: u128| (x as int) < C::spec_modulus() ==> #[trigger] f.requires((x,)),
                forall|x: u128, y: u128|
                    (x as int) < C::spec_modulus() && #[trigger] f.ensures((x,), y) ==> (y as int) < C::spec_modulus(),
                coeffs@.len() == i,
                forall|j: int| 0 <= j < i ==> (coeffs@[j] as int) < C::spec_modulus(),
                forall|j: int| 0 <= j < i ==> #[trigger] f.ensures((orig.coeff(j) as u128,), coeffs@[j]),
            decreases n - i,
        {
            let c = if i < self.coeffs.len() {
                self.coeffs[i]
            } else {
                0
            };
            proof {
                C::lemma_conf_valid();
                assert(c as int == orig.coeff(i as int));
                assert((c as int) < C::spec_modulus());
                assert(f.requires((c,)));
            }
            let v = f(c);
            coeffs.push(v);
            i += 1;
        }
        let ghost before = coeffs@;
        self.coeffs = coeffs;
        self.truncate_to_canonical_form();
        proof {
            assert forall|j: int| 0 <= j < n implies #[trigger] f.ensures((orig.coeff(j) as u128,), self.coeff(j) as u128) by {
                if j >= self.coeffs@.len() {
                    assert(before[j] == 0);
                }
                assert(self.coeff(j) as u128 == before[j]);
                assert(f.ensures((orig.coeff(j) as u128,), before[j]));
            }
        }
    }

    /// Maps the non-zero coefficients of `self` to another coefficient configuration using
    /// `f_zero_to_zero`, and returns the resulting polynomial, reduced to its canonical form.
    /// Zero coefficients are copied unmodified.
    ///
    /// `f_zero_to_zero` maps zero to zero (but non-zero inputs may be mapped to zero), and
    /// coefficients reduced for `C` to coefficients reduced for `U`.
    pub fn map_non_zero<U: PolyConf, F: Fn(u128) -> u128>(&self, f_zero_to_zero: F) -> (r: Poly<U>)
        requires
            self.wf(),
            forall|x: u128| (x as int) < C::spec_modulus() ==> #[trigger] f_zero_to_zero.requires((x,)),
            forall|x: u128, y: u128|
                (x as int) < C::spec_modulus() && #[trigger] f_zero_to_zero.ensures((x,), y) ==> (y as int) < U::spec_modulus(),
            forall|y: u128| #[trigger] f_zero_to_zero.ensures((0u128,), y) ==> y == 0,
        ensures
            r.is_canonical(),
            exists|mapped: Seq<u128>|
                {
                    &&& mapped.len() == self.coeffs@.len()
                    &&& forall|i: int|
                        0 <= i < mapped.len() ==> if self.coeffs@[i] == 0 {
                            mapped[i] == 0
                        } else {
                            #[trigger] f_zero_to_zero.ensures((self.coeffs@[i],), mapped[i])
                        }
                    &&& r.ring() == ring_seq(ints(mapped), U::spec_max_poly_degree(), U::spec_modulus())
                },
    {
        let len = self.coeffs.len();
        let mut res = Poly::<U>::non_canonical_zeroes(len);
        let mut i: usize = 0;
        while i < len
            invariant
                i <= len,
                len == self.coeffs@.len(),
                self.wf(),
                res.wf(),
                res.coeffs@.len() == len,
                forall|x: u128| (x as int) < C::spec_modulus() ==> #[trigger] f_zero_to_zero.requires((x,)),
                forall|x: u128, y: u128|
                    (x as int) < C::spec_modulus() && #[trigger] f_zero_to_zero.ensures((x,), y) ==> (y as int)
                        < U::spec_modulus(),
                forall|j: int| i <= j < len ==> res.coeffs@[j] == 0,
                forall|j: int|
                    0 <= j < i ==> if self.coeffs@[j] == 0 {
                        res.coeffs@[j] == 0
                    } else {
                        f_zero_to_zero.ensures((self.coeffs@[j],), res.coeffs@[j])
                    },
            decreases len - i,
        {
            let c = self.coeffs[i];
            if c != 0 {
                let v = f_zero_to_zero(c);
                res.coeffs.set(i, v);
            }
            i += 1;
        }
        let ghost mapped = res.coeffs@;
        res.reduce_mod_poly();
        proof {
            assert(forall|i: int|
                0 <= i < mapped.len() ==> if self.coeffs@[i] == 0 {
                    mapped[i] == 0
                } else {
                    #[trigger] f_zero_to_zero.ensures((self.coeffs@[i],), mapped[i])
                });
        }
        res
    }

    /// Maps all `N` coefficients of `self`, including leading zeroes, to another coefficient
    /// configuration using `f`, and returns the resulting polynomial, reduced to its canonical
    /// form. `f` maps coefficients reduced for `C` to coefficients reduced for `U`.
    pub fn map_include_zero<U: PolyConf, F: Fn(u128) -> u128>(&mut self, f: F) -> (r: Poly<U>)
        requires
            old(self).wf(),
            old(self).coeffs@.len() <= C::spec_max_poly_degree(),
            forall|x: u128| (x as int) < C::spec_modulus() ==> #[trigger] f.requires((x,)),
            forall|x: u128, y: u128| (x as int) < C::spec_modulus() && #[trigger] f.ensures((x,), y) ==> (y as int) < U::spec_modulus(),
        ensures
            final(self).coeffs@ == old(self).coeffs@,
            r.is_canonical(),
            exists|mapped: Seq<u128>|
                {
                    &&& mapped.len() == C::spec_max_poly_degree()
                    &&& forall|i: int| 0 <= i < mapped.len() ==> #[trigger] f.ensures((old(self).coeff(i) as u128,), mapped[i])
                    &&& r.ring() == ring_seq(ints(mapped), U::spec_max_poly_degree(), U::spec_modulus())
                },
    {
        proof {
            C::lemma_conf_valid();
        }
        let n = C::max_poly_degree();
        let mut coeffs: Vec<u128> = Vec::new();
        let mut i: usize = 0;
        while i < n
            invariant
                i <= n,
                n == C::spec_max_poly_degree(),
                self.wf(),
                forall|x: u128| (x as int) < C::spec_modulus() ==> #[trigger] f.requires((x,)),
                forall|x: u128, y: u128|
                    (x as int) < C::spec_modulus() && #[trigger] f.ensures((x,), y) ==> (y as int) < U::spec_modulus(),
                coeffs@.len() == i,
                forall|j: int| 0 <= j < i ==> (coeffs@[j] as int) < U::spec_modulus(),
                forall|j: int| 0 <= j < i ==> #[trigger] f.ensures((self.coeff(j) as u128,), coeffs@[j]),
            decreases n - i,
        {
            let c = if i < self.coeffs.len() {
                self.coeffs[i]
            } else {
                0
            };
            proof {
                C::lemma_conf_valid();
                assert(c as int == self.coeff(i as int));
                assert((c as int) < C::spec_modulus());
                assert(f.requires((c,)));
            }
            let v = f(c);
            coeffs.push(v);
            i += 1;
        }
        let ghost mapped = coeffs@;
        let r = Poly::<U>::from_coefficients_vec(coeffs);
        r
    }

    /// Maps all `N` coefficients of `self`, including leading zeroes, to an arbitrary type using
    /// `f`, and returns the results in order.
    pub fn extract_include_zero<T, F: Fn(u128) -> T>(&mut self, f: F) -> (r: Vec<T>)
        requires
            old(self).wf(),
            old(self).coeffs@.len() <= C::spec_max_poly_degree(),
            forall|x: u128| (x as int) < C::spec_modulus() ==> #[trigger] f.requires((x,)),
        ensures
            final(self).coeffs@ == old(self).coeffs@,
            r@.len() == C::spec_max_poly_degree(),
            forall|i: int| 0 <= i < r@.len() ==> #[trigger] f.ensures((old(self).coeff(i) as u128,), r@[i]),
    {
        proof {
            C::lemma_conf_valid();
        }
        let n = C::max_poly_degree();
        let mut res: Vec<T> = Vec::new();
        let mut i: usize = 0;
        while i < n
            invariant
                i <= n,
                n == C::spec_max_poly_degree(),
                self.wf(),
                forall|x: u128| (x as int) < C::spec_modulus() ==> #[trigger] f.requires((x,)),
                res@.len() == i,
                forall|j: int| 0 <= j < i ==> #[trigger] f.ensures((self.coeff(j) as u128,), res@[j]),
            decreases n - i,
        {
            let c = if i < self.coeffs.len() {
                self.coeffs[i]
            } else {
                0
            };
            proof {
                C::lemma_conf_valid();
                assert(c as int == self.coeff(i as int));
                assert((c as int) < C::spec_modulus());
                assert(f.requires((c,)));
            }
            res.push(f(c));
            i += 1;
        }
        res
    }
}

} // verus!
