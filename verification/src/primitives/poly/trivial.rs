//! Coefficient-wise operations on [`Poly`]: addition, subtraction, negation and scaling.
use core::marker::PhantomData;
use vstd::arithmetic::div_mod::*;
use vstd::prelude::*;

use crate::primitives::field::{add_mod, modulus_ok, mul_mod, neg_mod, sub_mod};
use crate::primitives::poly::algebra::{cong, get, ints, lemma_ring_seq_cong, ring_seq};
use crate::primitives::poly::conf::PolyConf;
use crate::primitives::poly::Poly;

verus! {

/// The larger of two lengths.
pub open spec fn max_len(a: nat, b: nat) -> nat {
    if a < b {
        b
    } else {
        a
    }
}

/// If every coefficient of `r` is the matching one of `p` reduced modulo `q`, they represent the
/// same ring element.
pub proof fn lemma_pointwise_ring<C: PolyConf>(r: &Poly<C>, p: Seq<int>)
    requires
        forall|i: int| r.coeff(i) == get(p, i) % C::spec_modulus(),
    ensures
        cong(r.ints(), p, C::spec_modulus()),
        r.ring() == ring_seq(p, C::spec_max_poly_degree(), C::spec_modulus()),
{
    C::lemma_conf_valid();
    let q = C::spec_modulus();
    assert forall|i: int| #[trigger] get(r.ints(), i) % q == #[trigger] get(p, i) % q by {
        assert(r.coeff(i) == get(p, i) % q);
        lemma_mod_twice(get(p, i), q);
    }
    lemma_ring_seq_cong(r.ints(), p, C::spec_max_poly_degree(), q);
}

impl<C: PolyConf> Poly<C> {
    /// Builds a polynomial from per-index results, then removes leading zeroes.
    fn from_trimmed(coeffs: Vec<u128>) -> (r: Self)
        requires
            coeffs_reduced_u(coeffs@, C::spec_modulus()),
        ensures
            r.wf(),
            r.coeffs@.len() <= coeffs@.len(),
            r.coeffs@.len() > 0 ==> r.coeffs@.last() != 0,
            forall|i: int| r.coeff(i) == get(ints(coeffs@), i),
            coeffs@.len() <= C::spec_max_poly_degree() ==> r.is_canonical(),
    {
        let mut r = Poly { coeffs, conf: PhantomData };
        r.truncate_to_canonical_form();
        proof {
            assert forall|i: int| r.coeff(i) == get(ints(coeffs@), i) by {
                if 0 <= i < coeffs@.len() && i >= r.coeffs@.len() {
                    assert(coeffs@[i] == 0);
                }
            }
        }
        r
    }

    /// Returns `self + rhs`, adding coefficients modulo `q`.
    pub fn add(&self, rhs: &Self) -> (r: Self)
        requires
            self.wf(),
            rhs.wf(),
        ensures
            r.wf(),
            r.coeffs@.len() <= max_len(self.coeffs@.len(), rhs.coeffs@.len()),
            r.coeffs@.len() > 0 ==> r.coeffs@.last() != 0,
            forall|i: int| r.coeff(i) == (self.coeff(i) + rhs.coeff(i)) % C::spec_modulus(),
            self.is_canonical() && rhs.is_canonical() ==> r.is_canonical(),
    {
        proof {
            C::lemma_conf_valid();
        }
        let q = C::modulus();
        let la = self.coeffs.len();
        let lb = rhs.coeffs.len();
        let n = if la < lb {
            lb
        } else {
            la
        };
        let mut coeffs: Vec<u128> = Vec::new();
        let mut i: usize = 0;
        while i < n
            invariant
                i <= n,
                n == max_len(la as nat, lb as nat),
                la == self.coeffs@.len(),
                lb == rhs.coeffs@.len(),
                q == C::spec_modulus(),
                modulus_ok(q as int),
                self.wf(),
                rhs.wf(),
                coeffs@.len() == i,
                forall|j: int| 0 <= j < i ==> coeffs@[j] as int == (self.coeff(j) + rhs.coeff(j)) % (q as int),
                forall|j: int| 0 <= j < i ==> coeffs@[j] < q,
            decreases n - i,
        {
            let x = if i < la {
                self.coeffs[i]
            } else {
                0
            };
            let y = if i < lb {
                rhs.coeffs[i]
            } else {
                0
            };
            coeffs.push(add_mod(x, y, q));
            i += 1;
        }
        let r = Self::from_trimmed(coeffs);
        proof {
            assert forall|i: int| r.coeff(i) == (self.coeff(i) + rhs.coeff(i)) % C::spec_modulus() by {
                if !(0 <= i < n) {
                    lemma_small_mod(0, q as nat);
                }
            }
        }
        r
    }

    /// Returns `self - rhs`, subtracting coefficients modulo `q`.
    pub fn sub(&self, rhs: &Self) -> (r: Self)
        requires
            self.wf(),
            rhs.wf(),
        ensures
            r.wf(),
            r.coeffs@.len() <= max_len(self.coeffs@.len(), rhs.coeffs@.len()),
            r.coeffs@.len() > 0 ==> r.coeffs@.last() != 0,
            forall|i: int| r.coeff(i) == (self.coeff(i) - rhs.coeff(i)) % C::spec_modulus(),
            self.is_canonical() && rhs.is_canonical() ==> r.is_canonical(),
    {
        proof {
            C::lemma_conf_valid();
        }
        let q = C::modulus();
        let la = self.coeffs.len();
        let lb = rhs.coeffs.len();
        let n = if la < lb {
            lb
        } else {
            la
        };
        let mut coeffs: Vec<u128> = Vec::new();
        let mut i: usize = 0;
        while i < n
            invariant
                i <= n,
                n == max_len(la as nat, lb as nat),
                la == self.coeffs@.len(),
                lb == rhs.coeffs@.len(),
                q == C::spec_modulus(),
                modulus_ok(q as int),
                self.wf(),
                rhs.wf(),
                coeffs@.len() == i,
                forall|j: int| 0 <= j < i ==> coeffs@[j] as int == (self.coeff(j) - rhs.coeff(j)) % (q as int),
                forall|j: int| 0 <= j < i ==> coeffs@[j] < q,
            decreases n - i,
        {
            let x = if i < la {
                self.coeffs[i]
            } else {
                0
            };
            let y = if i < lb {
                rhs.coeffs[i]
            } else {
                0
            };
            coeffs.push(sub_mod(x, y, q));
            i += 1;
        }
        let r = Self::from_trimmed(coeffs);
        proof {
            assert forall|i: int| r.coeff(i) == (self.coeff(i) - rhs.coeff(i)) % C::spec_modulus() by {
                if !(0 <= i < n) {
                    lemma_small_mod(0, q as nat);
                }
            }
        }
        r
    }

    /// Returns `-self`, negating coefficients modulo `q`.
    pub fn neg(&self) -> (r: Self)
        requires
            self.wf(),
        ensures
            r.wf(),
            r.coeffs@.len() == self.coeffs@.len(),
            forall|i: int| r.coeff(i) == (-self.coeff(i)) % C::spec_modulus(),
            self.is_canonical() ==> r.is_canonical(),
    {
        proof {
            C::lemma_conf_valid();
        }
        let q = C::modulus();
        let n = self.coeffs.len();
        let mut coeffs: Vec<u128> = Vec::new();
        let mut i: usize = 0;
        while i < n
            invariant
                i <= n,
                n == self.coeffs@.len(),
                q == C::spec_modulus(),
                modulus_ok(q as int),
                self.wf(),
                coeffs@.len() == i,
                forall|j: int| 0 <= j < i ==> coeffs@[j] as int == (-self.coeff(j)) % (q as int),
                forall|j: int| 0 <= j < i ==> coeffs@[j] < q,
            decreases n - i,
        {
            coeffs.push(neg_mod(self.coeffs[i], q));
            i += 1;
        }
        proof {
            assert forall|i: int| get(ints(coeffs@), i) == (-self.coeff(i)) % (q as int) by {
                if !(0 <= i < n) {
                    lemma_small_mod(0, q as nat);
                }
            }
            if self.is_canonical() && n > 0 {
                // -x is zero only for x zero
                assert(self.coeffs@[n - 1] != 0);
                lemma_small_mod((q - self.coeffs@[n - 1]) as nat, q as nat);
                lemma_fundamental_div_mod_converse(-self.coeff(n - 1), q as int, -1, q - self.coeff(n - 1));
            }
        }
        Poly { coeffs, conf: PhantomData }
    }

    /// Adds `rhs` to `self`.
    pub fn add_assign(&mut self, rhs: &Self)
        requires
            old(self).wf(),
            rhs.wf(),
        ensures
            final(self).wf(),
            final(self).coeffs@.len() <= max_len(old(self).coeffs@.len(), rhs.coeffs@.len()),
            final(self).coeffs@.len() > 0 ==> final(self).coeffs@.last() != 0,
            forall|i: int| final(self).coeff(i) == (old(self).coeff(i) + rhs.coeff(i)) % C::spec_modulus(),
            old(self).is_canonical() && rhs.is_canonical() ==> final(self).is_canonical(),
    {
        *self = self.add(rhs);
    }

    /// Subtracts `rhs` from `self`.
    pub fn sub_assign(&mut self, rhs: &Self)
        requires
            old(self).wf(),
            rhs.wf(),
        ensures
            final(self).wf(),
            final(self).coeffs@.len() <= max_len(old(self).coeffs@.len(), rhs.coeffs@.len()),
            final(self).coeffs@.len() > 0 ==> final(self).coeffs@.last() != 0,
            forall|i: int| final(self).coeff(i) == (old(self).coeff(i) - rhs.coeff(i)) % C::spec_modulus(),
            old(self).is_canonical() && rhs.is_canonical() ==> final(self).is_canonical(),
    {
        *self = self.sub(rhs);
    }

    /// Multiplies every coefficient by the field element `c`.
    pub fn mul_assign_scalar(&mut self, c: u128)
        requires
            old(self).wf(),
            c < C::spec_modulus(),
        ensures
            final(self).wf(),
            final(self).coeffs@.len() <= old(self).coeffs@.len(),
            final(self).coeffs@.len() > 0 ==> final(self).coeffs@.last() != 0,
            forall|i: int| final(self).coeff(i) == (c * old(self).coeff(i)) % C::spec_modulus(),
            old(self).coeffs@.len() <= C::spec_max_poly_degree() ==> final(self).is_canonical(),
    {
        proof {
            C::lemma_conf_valid();
        }
        let q = C::modulus();
        let n = self.coeffs.len();
        let mut coeffs: Vec<u128> = Vec::new();
        let mut i: usize = 0;
        while i < n
            invariant
                i <= n,
                n == self.coeffs@.len(),
                q == C::spec_modulus(),
                modulus_ok(q as int),
                c < q,
                self.wf(),
                coeffs@.len() == i,
                forall|j: int| 0 <= j < i ==> coeffs@[j] as int == (c * self.coeff(j)) % (q as int),
                forall|j: int| 0 <= j < i ==> coeffs@[j] < q,
            decreases n - i,
        {
            coeffs.push(mul_mod(c, self.coeffs[i], q));
            i += 1;
        }
        let r = Self::from_trimmed(coeffs);
        proof {
            assert forall|i: int| r.coeff(i) == (c * self.coeff(i)) % C::spec_modulus() by {
                if !(0 <= i < n) {
                    lemma_small_mod(0, q as nat);
                }
            }
        }
        *self = r;
    }
}

/// Every stored coefficient is below `q`.
pub open spec fn coeffs_reduced_u(v: Seq<u128>, q: int) -> bool {
    forall|i: int| 0 <= i < v.len() ==> (v[i] as int) < q
}

} // verus!
