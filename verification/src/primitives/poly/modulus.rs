//! Reduction by the polynomial modulus `X^N + 1`.
use vstd::arithmetic::div_mod::*;
use vstd::prelude::*;

use crate::primitives::poly::algebra::{
    conv_seq, conv_upto, fold_upto, get, ints, lemma_get_conv_seq, lemma_get_padd,
    lemma_ring_add, lemma_ring_seq_cong, padd, ring_mul, ring_seq, span, trimmed,
};
use crate::primitives::poly::conf::PolyConf;
use crate::primitives::poly::division::is_division;
use crate::primitives::poly::inv::{new_unreduced_poly_modulus_slow, poly_modulus_coeffs};
use crate::primitives::poly::{mod_poly_manual_mut, Poly};

verus! {

/// The coefficient of `X^k` in `x (X^n + 1)`, using the first `len` coefficients of `x`:
/// `x_k + x_(k - n)`.
proof fn lemma_conv_upto_modulus(x: Seq<int>, n: nat, k: int, len: nat)
    requires
        n > 0,
        len <= x.len(),
    ensures
        conv_upto(x, ints(poly_modulus_coeffs(n)), k, len) == (if 0 <= k < len {
            x[k]
        } else {
            0
        }) + (if 0 <= k - n < len {
            x[k - n]
        } else {
            0
        }),
    decreases len,
{
    if len > 0 {
        lemma_conv_upto_modulus(x, n, k, (len - 1) as nat);
        let m = ints(poly_modulus_coeffs(n));
        let j = k - (len - 1);
        assert(get(m, j) == (if j == 0 || j == n { 1int } else { 0int })) by {
            if 0 <= j <= n {
                assert(m[j] == poly_modulus_coeffs(n)[j] as int);
            }
        }
    }
}

/// Folding `x (X^n + 1)` from `X^k` upwards leaves `x_(k - n)`: the terms telescope.
proof fn lemma_fold_modulus(x: Seq<int>, n: nat, k: int, hi: int)
    requires
        n > 0,
        k >= 0,
        hi >= x.len() + n + 1,
    ensures
        fold_upto(conv_seq(x, ints(poly_modulus_coeffs(n))), n as int, k, hi) == get(x, k - n),
    decreases span(k, hi),
{
    let m = ints(poly_modulus_coeffs(n));
    if k < hi {
        lemma_fold_modulus(x, n, k + n, hi);
        lemma_get_conv_seq(x, m, k);
        lemma_conv_upto_modulus(x, n, k, x.len());
    }
}

/// Every multiple of the polynomial modulus is zero in the ring.
pub proof fn lemma_ring_mul_modulus_zero(x: Seq<int>, n: nat, q: int)
    requires
        n > 0,
        q > 0,
    ensures
        ring_mul(x, ints(poly_modulus_coeffs(n)), n, q) == Seq::new(n, |k: int| 0int),
{
    let m = ints(poly_modulus_coeffs(n));
    assert forall|k: int| 0 <= k < n implies #[trigger] ring_mul(x, m, n, q)[k] == 0 by {
        lemma_fold_modulus(x, n, k, conv_seq(x, m).len() as int);
        lemma_small_mod(0, q as nat);
    }
    assert(ring_mul(x, m, n, q) =~= Seq::new(n, |k: int| 0int));
}

/// Returns the remainder of `dividend` divided by the polynomial modulus, as a new polynomial
/// in canonical form.
///
/// This clones `dividend`, then uses the manual reduction.
pub fn mod_poly_manual_ref<C: PolyConf>(dividend: &Poly<C>) -> (r: Poly<C>)
    requires
        dividend.wf(),
    ensures
        r.is_canonical(),
        r.ring() == dividend.ring(),
{
    let mut dividend = dividend.clone();
    mod_poly_manual_mut(&mut dividend);
    dividend
}

/// Returns the remainder of `dividend` divided by the polynomial modulus, computed by long
/// division by `X^N + 1`.
pub fn mod_poly_ark_ref_slow<C: PolyConf>(dividend: &Poly<C>) -> (r: Poly<C>)
    requires
        dividend.wf(),
        trimmed(dividend.coeffs@),
    ensures
        r.is_canonical(),
        r.ring() == dividend.ring(),
{
    proof {
        C::lemma_conf_valid();
    }
    let ghost n = C::spec_max_poly_degree();
    let ghost q = C::spec_modulus();
    let modulus = new_unreduced_poly_modulus_slow::<C>();
    let ghost m = modulus.ints();
    proof {
        assert(modulus.coeffs@.last() == 1);
        lemma_small_mod(1, q as nat);
        assert(((modulus.coeffs@.last() * 1) % q) == 1);
    }
    let division = dividend.divide_with_q_and_r(&modulus);
    let (quotient, remainder) = division.unwrap();
    proof {
        if dividend.coeffs@.len() == 0 {
            assert(remainder.ints() =~= dividend.ints());
        } else {
            let (qs, rs) = choose|qs: Seq<int>, rs: Seq<int>|
                #[trigger] is_division(dividend.ints(), m, qs, rs, q)
                    && quotient.ring() == ring_seq(qs, n, q) && remainder.ring() == ring_seq(rs, n, q);
            let c = conv_seq(qs, m);
            let s = padd(c, rs);
            assert forall|i: int| #[trigger] get(dividend.ints(), i) % q == #[trigger] get(s, i) % q by {
                lemma_get_padd(c, rs, i);
            }
            lemma_ring_seq_cong(dividend.ints(), s, n, q);
            assert forall|i: int| #[trigger] get(s, i) == get(c, i) + get(rs, i) by {
                lemma_get_padd(c, rs, i);
            }
            lemma_ring_add(s, c, rs, n, q);
            lemma_ring_mul_modulus_zero(qs, n, q);
            assert forall|k: int| 0 <= k < n implies #[trigger] ring_seq(s, n, q)[k] == ring_seq(rs, n, q)[k] by {
                assert(ring_seq(c, n, q)[k] == 0);
                lemma_mod_twice(fold_upto(rs, n as int, k, rs.len() as int), q);
            }
            assert(ring_seq(s, n, q) =~= ring_seq(rs, n, q));
        }
    }
    remainder
}

/// Reduces `dividend` by the polynomial modulus, replacing it by the remainder of its long
/// division by `X^N + 1`.
pub fn mod_poly_ark_mut<C: PolyConf>(dividend: &mut Poly<C>)
    requires
        old(dividend).wf(),
        trimmed(old(dividend).coeffs@),
    ensures
        final(dividend).is_canonical(),
        final(dividend).ring() == old(dividend).ring(),
{
    let remainder = mod_poly_ark_ref_slow(dividend);
    *dividend = remainder;
}

} // verus!
