//! Polynomial long division over `Z_q`, without reduction by `X^N + 1`.
use core::marker::PhantomData;
use vstd::arithmetic::div_mod::*;
use vstd::arithmetic::mul::*;
use vstd::prelude::*;

use crate::primitives::field::{inv_mod, modulus_ok, mul_mod, sub_mod};
use crate::primitives::poly::algebra::{
    cong, coeffs_reduced, conv, conv_seq, conv_upto, get, ints, lemma_get_conv_seq, lemma_ring_seq_cong, ring_seq, trimmed,
};
use crate::primitives::poly::conf::PolyConf;
use crate::primitives::poly::Poly;

verus! {

/// `quo` and `rem` are a quotient and a remainder of `num` by `den` over `Z_q`:
/// `num = quo den + rem` coefficient by coefficient modulo `q`, with `rem` shorter than `den`.
pub open spec fn is_division(num: Seq<int>, den: Seq<int>, quo: Seq<int>, rem: Seq<int>, q: int) -> bool {
    &&& rem.len() < den.len()
    &&& forall|k: int| #[trigger] get(num, k) % q == (get(conv_seq(quo, den), k) + get(rem, k)) % q
}

/// Setting a zero coefficient `i` of the left factor to `c` adds `c` times the right factor,
/// shifted by `i`.
proof fn lemma_conv_upto_set(a: Seq<int>, i: int, c: int, b: Seq<int>, k: int, len: nat)
    requires
        0 <= i < a.len(),
        a[i] == 0,
    ensures
        conv_upto(a.update(i, c), b, k, len) == conv_upto(a, b, k, len) + if i < len {
            c * get(b, k - i)
        } else {
            0
        },
    decreases len,
{
    if len > 0 {
        lemma_conv_upto_set(a, i, c, b, k, (len - 1) as nat);
    }
}

/// Long division of `num` by `den`, whose leading coefficient has inverse `lead_inv`. Returns the
/// full quotient and remainder vectors: `num.len() - den.len() + 1` and `num.len()` coefficients.
fn long_division(num: &Vec<u128>, den: &Vec<u128>, lead_inv: u128, q: u128) -> (r: (Vec<u128>, Vec<u128>))
    requires
        modulus_ok(q as int),
        coeffs_reduced(num@, q as int),
        coeffs_reduced(den@, q as int),
        0 < den@.len() <= num@.len(),
        lead_inv < q,
        (den@.last() * lead_inv) % (q as int) == 1,
    ensures
        coeffs_reduced(r.0@, q as int),
        coeffs_reduced(r.1@, q as int),
        r.1@.len() == num@.len(),
        forall|j: int| den@.len() - 1 <= j < r.1@.len() ==> r.1@[j] == 0,
        forall|k: int|
            #[trigger] get(ints(num@), k) % (q as int) == (get(conv_seq(ints(r.0@), ints(den@)), k) + get(ints(r.1@), k)) % (q as int),
{
    let ns = num.len();
    let nd = den.len();
    let lead = den[nd - 1];
    let ghost qi = q as int;
    let ghost d = ints(den@);
    let mut rem = num.clone();
    let mut quo: Vec<u128> = Vec::new();
    let count = ns - nd + 1;
    let mut z: usize = 0;
    while z < count
        invariant
            z <= count,
            count == ns - nd + 1,
            quo@.len() == z,
            forall|j: int| 0 <= j < z ==> quo@[j] == 0,
        decreases count - z,
    {
        quo.push(0);
        z += 1;
    }
    proof {
        assert(rem@ =~= num@);
        assert forall|k: int| #[trigger] get(ints(num@), k) % qi == (get(conv_seq(ints(quo@), d), k) + get(ints(rem@), k)) % qi by {
            lemma_get_conv_seq(ints(quo@), d, k);
            lemma_conv_zero(ints(quo@), d, k, quo@.len());
        }
    }
    let mut i: usize = count;
    while i > 0
        invariant
            i <= ns - nd + 1,
            ns == num@.len(),
            nd == den@.len(),
            0 < nd <= ns,
            lead == den@[nd - 1],
            (lead * lead_inv) % qi == 1,
            lead_inv < q,
            qi == q,
            d == ints(den@),
            modulus_ok(qi),
            coeffs_reduced(den@, qi),
            coeffs_reduced(rem@, qi),
            coeffs_reduced(quo@, qi),
            rem@.len() == ns,
            quo@.len() == ns - nd + 1,
            forall|j: int| 0 <= j < i ==> quo@[j] == 0,
            forall|j: int| i + nd - 1 <= j < ns ==> rem@[j] == 0,
            forall|k: int| #[trigger] get(ints(num@), k) % qi == (get(conv_seq(ints(quo@), d), k) + get(ints(rem@), k)) % qi,
        decreases i,
    {
        i -= 1;
        let top = i + nd - 1;
        let c = mul_mod(rem[top], lead_inv, q);
        let ghost old_rem = rem@;
        let ghost old_quo = quo@;
        quo.set(i, c);
        let mut j: usize = 0;
        while j < nd
            invariant
                j <= nd,
                i + nd <= ns,
                nd == den@.len(),
                qi == q,
                modulus_ok(qi),
                c < q,
                coeffs_reduced(den@, qi),
                coeffs_reduced(old_rem, qi),
                coeffs_reduced(rem@, qi),
                rem@.len() == ns,
                old_rem.len() == ns,
                forall|k: int| 0 <= k < ns && !(i <= k < i + j) ==> rem@[k] == old_rem[k],
                forall|jj: int| 0 <= jj < j ==> rem@[i + jj] as int == (old_rem[i + jj] - c * den@[jj]) % qi,
            decreases nd - j,
        {
            let p = mul_mod(c, den[j], q);
            let v = sub_mod(rem[i + j], p, q);
            proof {
                lemma_sub_mod_noop(old_rem[i + j] as int, c * den@[j as int], qi);
                lemma_mod_twice(c * den@[j as int], qi);
                lemma_small_mod(old_rem[i + j as int] as nat, q as nat);
                assert(v as int == (old_rem[i + j] - c * den@[j as int]) % qi);
            }
            rem.set(i + j, v);
            j += 1;
        }
        proof {
            let ci = c as int;
            assert(quo@ == old_quo.update(i as int, ci as u128));
            assert(ints(quo@) == ints(old_quo).update(i as int, ci)) by {
                assert(ints(quo@) =~= ints(old_quo).update(i as int, ci));
            }
            // the top coefficient is cleared
            assert(rem@[top as int] == 0) by {
                let t = old_rem[top as int] as int;
                assert(rem@[top as int] as int == (t - ci * lead) % qi);
                assert(ci == (t * lead_inv) % qi);
                lemma_mul_mod_noop_left(t * lead_inv, lead as int, qi);
                assert((ci * lead) % qi == (t * lead_inv * lead) % qi);
                assert(t * lead_inv * lead == t * (lead * lead_inv)) by (nonlinear_arith);
                lemma_mul_mod_noop_right(t, lead * lead_inv, qi);
                lemma_small_mod(1, q as nat);
                lemma_small_mod(t as nat, q as nat);
                assert((ci * lead) % qi == t);
                lemma_sub_mod_noop(t, ci * lead, qi);
                lemma_mod_self_0(qi);
                lemma_small_mod(0, q as nat);
            }
            assert forall|jj: int| i + nd - 1 <= jj < ns implies rem@[jj] == 0 by {
                if jj > top {
                    assert(rem@[jj] == old_rem[jj]);
                }
            }
            assert forall|k: int| #[trigger] get(ints(num@), k) % qi == (get(conv_seq(ints(quo@), d), k) + get(ints(rem@), k)) % qi by {
                lemma_get_conv_seq(ints(quo@), d, k);
                lemma_get_conv_seq(ints(old_quo), d, k);
                lemma_conv_upto_set(ints(old_quo), i as int, ci, d, k, ints(old_quo).len());
                let a = conv(ints(old_quo), d, k);
                let dk = get(d, k - i);
                let r0 = get(ints(old_rem), k);
                let r1 = get(ints(rem@), k);
                assert(conv(ints(quo@), d, k) == a + ci * dk);
                if i <= k < i + nd {
                    assert(r1 == (r0 - ci * dk) % qi);
                    lemma_add_mod_noop(a + ci * dk, r0 - ci * dk, qi);
                    lemma_add_mod_noop(a + ci * dk, r1, qi);
                    lemma_mod_twice(r0 - ci * dk, qi);
                    assert(a + ci * dk + (r0 - ci * dk) == a + r0);
                } else {
                    assert(dk == 0);
                    assert(r1 == r0);
                }
            }
        }
    }
    (quo, rem)
}

/// With a zero left factor, every product coefficient is zero.
proof fn lemma_conv_zero(a: Seq<int>, b: Seq<int>, k: int, len: nat)
    requires
        forall|j: int| 0 <= j < a.len() ==> a[j] == 0,
        len <= a.len(),
    ensures
        conv_upto(a, b, k, len) == 0,
    decreases len,
{
    if len > 0 {
        lemma_conv_zero(a, b, k, (len - 1) as nat);
    }
}


impl<C: PolyConf> Poly<C> {
    /// Divides `self` by `divisor` over `Z_q`, returning the quotient and remainder, each reduced
    /// by `X^N + 1`. The zero polynomial divides into zero quotient and remainder, and a shorter
    /// dividend is its own remainder. Otherwise returns `None` when the divisor is zero, or its
    /// leading coefficient has no inverse modulo `q` (which a prime modulus rules out).
    pub fn divide_with_q_and_r(&self, divisor: &Self) -> (r: Option<(Self, Self)>)
        requires
            self.wf(),
            divisor.wf(),
            trimmed(self.coeffs@),
            trimmed(divisor.coeffs@),
        ensures
            match r {
                None => self.coeffs@.len() > 0 && (divisor.coeffs@.len() == 0 || forall|x: int|
                    #[trigger] ((divisor.coeffs@.last() * x) % C::spec_modulus()) != 1),
                Some(qr) => {
                    &&& qr.0.is_canonical()
                    &&& qr.1.is_canonical()
                    &&& self.coeffs@.len() == 0 ==> qr.0.coeffs@.len() == 0 && qr.1.coeffs@.len() == 0
                    &&& self.coeffs@.len() > 0 && divisor.coeffs@.len() <= C::spec_max_poly_degree() + 1
                        ==> qr.1.coeffs@.len() < divisor.coeffs@.len()
                    &&& self.coeffs@.len() > 0 ==> exists|qs: Seq<int>, rs: Seq<int>|
                        #[trigger] is_division(self.ints(), divisor.ints(), qs, rs, C::spec_modulus())
                            && qr.0.ring() == ring_seq(qs, C::spec_max_poly_degree(), C::spec_modulus())
                            && qr.1.ring() == ring_seq(rs, C::spec_max_poly_degree(), C::spec_modulus())
                },
            },
            r is None <==> self.coeffs@.len() > 0 && (divisor.coeffs@.len() == 0 || (self.coeffs@.len()
                >= divisor.coeffs@.len() && forall|x: int| #[trigger] ((divisor.coeffs@.last() * x) % C::spec_modulus()) != 1)),
    {
        proof {
            C::lemma_conf_valid();
        }
        let q = C::modulus();
        if self.coeffs.len() == 0 {
            return Some((Self::zero(), Self::zero()));
        }
        if divisor.coeffs.len() == 0 {
            return None;
        }
        let ghost n = C::spec_max_poly_degree();
        let ghost qi = q as int;
        if self.coeffs.len() < divisor.coeffs.len() {
            let copy = self.duplicate();
            let rem = Self::from_coefficients_vec(copy.coeffs);
            let zero = Self::zero();
            proof {
                let qs = Seq::<int>::empty();
                let rs = self.ints();
                assert forall|k: int| #[trigger] get(self.ints(), k) % qi == (get(conv_seq(qs, divisor.ints()), k) + get(rs, k)) % qi by {
                    lemma_get_conv_seq(qs, divisor.ints(), k);
                }
                assert(is_division(self.ints(), divisor.ints(), qs, rs, qi));
                if divisor.coeffs@.len() <= n + 1 {
                    lemma_short_len(&rem, self.coeffs@.len(), self.ints());
                }
                assert(zero.ring() == ring_seq(qs, n, qi)) by {
                    assert(zero.ints() =~= qs);
                }
            }
            return Some((zero, rem));
        }
        let nd = divisor.coeffs.len();
        let lead = divisor.coeffs[nd - 1];
        match inv_mod(lead, q) {
            None => None,
            Some(lead_inv) => {
                proof {
                    lemma_mul_is_commutative(lead as int, lead_inv as int);
                }
                let (qv, rv_full) = long_division(&self.coeffs, &divisor.coeffs, lead_inv, q);
                let ghost rv = rv_full;
                let ghost rs = ints(rv@).take(nd - 1);
                let mut short = rv_full;
                short.truncate(nd - 1);
                let quo = Self::from_coefficients_vec(qv);
                let rem = Self::from_coefficients_vec(short);
                proof {
                    assert(ints(short@) =~= rs);
                    if nd <= n + 1 {
                        lemma_short_len(&rem, (nd - 1) as nat, ints(short@));
                    }
                    assert forall|k: int| #[trigger] get(ints(rv@), k) == get(rs, k) by {
                        if nd - 1 <= k < rv@.len() {
                            assert(rv@[k] == 0);
                        }
                    }
                    assert(cong(ints(rv@), rs, qi));
                    lemma_ring_seq_cong(ints(rv@), rs, n, qi);
                    assert forall|k: int| #[trigger] get(self.ints(), k) % qi == (get(conv_seq(ints(qv@), divisor.ints()), k) + get(rs, k)) % qi by {
                        assert(get(ints(self.coeffs@), k) % qi == (get(conv_seq(ints(qv@), ints(divisor.coeffs@)), k) + get(ints(rv@), k)) % qi);
                    }
                    assert(is_division(self.ints(), divisor.ints(), ints(qv@), rs, qi));
                }
                Some((quo, rem))
            },
        }
    }
}


/// A trimmed polynomial whose coefficients vanish from `len` on has at most `len` of them.
proof fn lemma_short_len<C: PolyConf>(p: &Poly<C>, len: nat, s: Seq<int>)
    requires
        p.coeffs@.len() > 0 ==> p.coeffs@.last() != 0,
        s.len() == len,
        forall|i: int| p.coeff(i) == get(s, i),
    ensures
        p.coeffs@.len() <= len,
{
    if p.coeffs@.len() > len {
        assert(p.coeff(p.coeffs@.len() - 1) == get(s, p.coeffs@.len() - 1));
    }
}

} // verus!
