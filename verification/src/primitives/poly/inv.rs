//! Polynomial inverse in the cyclotomic ring, by the extended Euclidean algorithm.
//!
//! The algorithm is Algorithm 3.3.1 (page 118) of "A Course in Computational Algebraic Number
//! Theory", Henri Cohen, without dividing by the content at every step.
use core::marker::PhantomData;
use vstd::prelude::*;

use crate::primitives::field::{inv_mod, is_prime, lemma_prime_inverse};
use crate::primitives::poly::algebra::{conv_seq, cong, get, padd, psub, ring_mul, ring_seq, trimmed};
use crate::primitives::poly::bezout::{
    bezout, lemma_bezout_init, lemma_bezout_step, lemma_division_ring, lemma_inverse_from_bezout, lemma_ring_times_zero,
};
use crate::primitives::poly::conf::PolyConf;
use crate::primitives::poly::division::is_division;
use crate::primitives::poly::divides::{
    divides_poly, lemma_combination_divides, lemma_combination_init, lemma_combination_step, lemma_common_divisor,
    lemma_linear_step, lemma_no_inverse, lemma_remainder_cong,
};
use crate::primitives::poly::mul::{mul_poly, naive_cyclotomic_mul};
use crate::primitives::poly::Poly;

verus! {

/// The polynomial modulus `X^N + 1`, as `N + 1` coefficients.
pub open spec fn poly_modulus_coeffs(n: nat) -> Seq<u128> {
    Seq::new(n + 1, |i: int| if i == 0 || i == n { 1u128 } else { 0u128 })
}

/// Returns the polynomial modulus `X^N + 1`, in its canonical but unreduced form (the reduced
/// form is the zero polynomial).
pub fn new_unreduced_poly_modulus_slow<C: PolyConf>() -> (r: Poly<C>)
    ensures
        r.coeffs@ == poly_modulus_coeffs(C::spec_max_poly_degree()),
        r.wf(),
        trimmed(r.coeffs@),
{
    proof {
        C::lemma_conf_valid();
    }
    let n = C::max_poly_degree();
    let mut coeffs: Vec<u128> = Vec::new();
    let mut i: usize = 0;
    while i <= n
        invariant
            i <= n + 1,
            n == C::spec_max_poly_degree(),
            n <= 0x10_0000,
            coeffs@ == poly_modulus_coeffs(n as nat).take(i as int),
        decreases n + 1 - i,
    {
        coeffs.push(if i == 0 || i == n { 1 } else { 0 });
        i += 1;
        assert(coeffs@ =~= poly_modulus_coeffs(n as nat).take(i as int));
    }
    assert(coeffs@ =~= poly_modulus_coeffs(n as nat));
    Poly { coeffs, conf: PhantomData }
}

/// The coefficients of `X^N + 1`.
proof fn lemma_modulus_coeffs<C: PolyConf>(m: Poly<C>)
    requires
        m.coeffs@ == poly_modulus_coeffs(C::spec_max_poly_degree()),
    ensures
        forall|i: int|
            #[trigger] get(m.ints(), i) == if i == 0 || i == C::spec_max_poly_degree() {
                1int
            } else {
                0int
            },
{
}

/// The coefficient sequence `a` has an inverse in the ring `Z_q[X] / (X^n + 1)`: some
/// coefficient sequence `b` makes `a b = 1`.
pub open spec fn invertible(a: Seq<int>, n: nat, q: int) -> bool {
    exists|b: Seq<int>| #[trigger] ring_mul(a, b, n, q) == ring_seq(seq![1int], n, q)
}

/// `a` has an inverse in the ring `Z_q[X] / (X^N + 1)`.
pub open spec fn has_inverse<C: PolyConf>(a: Poly<C>) -> bool {
    invertible(a.ints(), C::spec_max_poly_degree(), C::spec_modulus())
}

/// The ring product of `a` and `b` in `Z_q[X] / (X^N + 1)`.
pub open spec fn ring_times<C: PolyConf>(a: Poly<C>, b: Poly<C>) -> Seq<int> {
    ring_mul(a.ints(), b.ints(), C::spec_max_poly_degree(), C::spec_modulus())
}

/// Multiplies in the ring, with the schoolbook method when a factor is short.
fn mul_short_or_karatsuba<C: PolyConf>(a: &Poly<C>, b: &Poly<C>) -> (r: Poly<C>)
    requires
        a.is_canonical(),
        b.is_canonical(),
    ensures
        r.is_canonical(),
        r.ring() == ring_times(*a, *b),
{
    proof {
        C::lemma_conf_valid();
    }
    if a.coeffs.len() <= 16 || b.coeffs.len() <= 16 {
        naive_cyclotomic_mul(a, b)
    } else {
        mul_poly(a, b)
    }
}

/// One step of the extended Euclidean algorithm on the Bezout coefficients: returns
/// `(prev - cur q, cur)`.
fn update_diophantine<C: PolyConf>(prev: Poly<C>, cur: Poly<C>, q: &Poly<C>) -> (r: (Poly<C>, Poly<C>))
    requires
        prev.is_canonical(),
        cur.is_canonical(),
        q.is_canonical(),
    ensures
        r.0.is_canonical(),
        r.1.coeffs@ == cur.coeffs@,
        forall|i: int|
            0 <= i < C::spec_max_poly_degree() ==> #[trigger] r.0.coeff(i) == (prev.coeff(i) - get(ring_times(cur, *q), i))
                % C::spec_modulus(),
{
    let mul_res = mul_short_or_karatsuba(&cur, q);
    proof {
        mul_res.lemma_canonical_ring();
    }
    let mut new_cur = prev;
    new_cur.sub_assign(&mul_res);
    (new_cur, cur)
}

/// Returns polynomials `(x, y, d)` from the extended Euclidean algorithm on `a` and `b`: `d` is
/// the last non-zero remainder, and `x` and `y` the matching Bezout coefficients, reduced in the
/// ring, so that `x a + y b = d` in the ring. Every common divisor of `a` and `b` over `Z_q`
/// divides `d`, and `d` is zero only when both are. The modulus is prime, so every non-zero
/// leading coefficient has an inverse and `d` also divides both `a` and `b` over `Z_q`: it is
/// their greatest common divisor.
pub fn extended_gcd<C: PolyConf>(a: &Poly<C>, b: &Poly<C>) -> (r: (Poly<C>, Poly<C>, Poly<C>))
    requires
        a.wf(),
        trimmed(a.coeffs@),
        b.wf(),
        b.coeffs@.len() <= C::spec_max_poly_degree() + 1,
    ensures
        r.0.is_canonical(),
        r.1.is_canonical(),
        r.2.wf(),
        trimmed(r.2.coeffs@),
        b.coeffs@.len() == 0 ==> r.2.coeffs@ == a.coeffs@,
        bezout(r.0, r.1, *a, *b, r.2),
        divides_poly(r.2.ints(), a.ints(), C::spec_modulus()) && divides_poly(
            r.2.ints(),
            b.ints(),
            C::spec_modulus(),
        ),
        forall|c: Seq<int>|
            divides_poly(c, a.ints(), C::spec_modulus()) && divides_poly(c, b.ints(), C::spec_modulus()) ==> #[trigger] divides_poly(
                c,
                r.2.ints(),
                C::spec_modulus(),
            ),
        r.2.coeffs@.len() == 0 ==> a.coeffs@.len() == 0 && forall|i: int| 0 <= i < b.coeffs@.len() ==> b.coeffs@[i] == 0,
{
    proof {
        C::lemma_conf_valid();
    }
    let mut x_prev = Poly::<C>::one();
    let mut y_prev = Poly::<C>::zero();
    let mut ri_prev = a.duplicate();
    let mut x_cur = Poly::<C>::zero();
    let mut y_cur = Poly::<C>::one();
    let mut ri_cur = b.duplicate();
    ri_cur.truncate_to_canonical_form();
    proof {
        assert(x_prev.ints() =~= seq![1int]);
        assert(x_cur.ints() =~= Seq::<int>::empty());
        lemma_bezout_init(*a, *b, x_prev, x_cur, ri_prev, ri_cur);
        assert(ri_prev.ints() == a.ints());
        assert forall|i: int| #[trigger] get(ri_cur.ints(), i) == get(b.ints(), i) by {
            if 0 <= i < b.coeffs@.len() {
                if i >= ri_cur.coeffs@.len() {
                    assert(b.coeffs@[i] == 0);
                } else {
                    assert(ri_cur.coeffs@[i] == b.coeffs@[i]);
                }
            }
        }
        lemma_combination_init(a.ints(), b.ints(), ri_cur.ints(), C::spec_modulus());
        assert forall|i: int| #[trigger] get(b.ints(), i) == get(ri_cur.ints(), i) by {}
        lemma_combination_init(a.ints(), ri_cur.ints(), b.ints(), C::spec_modulus());
    }
    let ghost mut u1: Seq<int> = seq![1int];
    let ghost mut u2: Seq<int> = Seq::<int>::empty();
    let ghost mut v1: Seq<int> = Seq::<int>::empty();
    let ghost mut v2: Seq<int> = seq![1int];
    let ghost mut xs1: Seq<int> = seq![1int];
    let ghost mut ys1: Seq<int> = Seq::<int>::empty();
    let ghost mut xs2: Seq<int> = Seq::<int>::empty();
    let ghost mut ys2: Seq<int> = seq![1int];
    let mut stuck = false;
    while !stuck && !ri_cur.is_zero()
        invariant
            x_prev.is_canonical(),
            y_prev.is_canonical(),
            x_cur.is_canonical(),
            y_cur.is_canonical(),
            ri_prev.wf(),
            trimmed(ri_prev.coeffs@),
            ri_cur.wf(),
            trimmed(ri_cur.coeffs@),
            ri_cur.coeffs@.len() <= C::spec_max_poly_degree() + 1,
            b.coeffs@.len() == 0 ==> ri_cur.coeffs@.len() == 0 && ri_prev.coeffs@ == a.coeffs@,
            bezout(x_prev, y_prev, *a, *b, ri_prev),
            bezout(x_cur, y_cur, *a, *b, ri_cur),
            cong(a.ints(), padd(conv_seq(u1, ri_prev.ints()), conv_seq(u2, ri_cur.ints())), C::spec_modulus()),
            cong(b.ints(), padd(conv_seq(v1, ri_prev.ints()), conv_seq(v2, ri_cur.ints())), C::spec_modulus()),
            stuck ==> !is_prime(C::spec_modulus()),
            cong(ri_prev.ints(), padd(conv_seq(xs1, a.ints()), conv_seq(ys1, b.ints())), C::spec_modulus()),
            cong(ri_cur.ints(), padd(conv_seq(xs2, a.ints()), conv_seq(ys2, b.ints())), C::spec_modulus()),
            stuck ==> ri_prev.coeffs@.len() > 0,
            ri_prev.coeffs@.len() == 0 && ri_cur.coeffs@.len() == 0 ==> a.coeffs@.len() == 0 && forall|i: int|
                0 <= i < b.coeffs@.len() ==> b.coeffs@[i] == 0,
        decreases ri_cur.coeffs@.len() + if stuck { 0int } else { 1int },
    {
        let ri_aux = ri_cur.duplicate();
        match ri_prev.divide_with_q_and_r(&ri_cur) {
            None => {
                proof {
                    // a prime modulus gives the leading coefficient an inverse
                    if is_prime(C::spec_modulus()) {
                        let c = ri_cur.coeffs@.last() as int;
                        vstd::arithmetic::div_mod::lemma_small_mod(c as nat, C::spec_modulus() as nat);
                        let x = lemma_prime_inverse(C::spec_modulus(), c);
                        assert(((ri_cur.coeffs@.last() * x) % C::spec_modulus()) == 1);
                    }
                }
                stuck = true;
            },
            Some((q, rem)) => {
                let ghost mut quo: Seq<int> = q.ints();
                let ghost mut rs: Seq<int> = rem.ints();
                proof {
                    C::lemma_conf_valid();
                    if ri_prev.coeffs@.len() == 0 {
                        assert forall|k: int| 0 <= k < C::spec_max_poly_degree() implies #[trigger] rem.ring()[k] == (ri_prev.ring()[k]
                            - ring_times(q, ri_cur)[k]) % C::spec_modulus() by {
                            assert(q.ints() =~= Seq::<int>::empty());
                            assert(rem.ints() =~= Seq::<int>::empty());
                            assert(ri_prev.ints() =~= Seq::<int>::empty());
                            lemma_ring_times_zero(q, ri_cur);
                            lemma_ring_times_zero(rem, ri_cur);
                            lemma_ring_times_zero(ri_prev, ri_cur);
                            vstd::arithmetic::div_mod::lemma_small_mod(0, C::spec_modulus() as nat);
                        }
                    } else {
                        let (qs, rs1) = choose|qs: Seq<int>, rs: Seq<int>|
                            #[trigger] is_division(ri_prev.ints(), ri_cur.ints(), qs, rs, C::spec_modulus())
                                && q.ring() == ring_seq(qs, C::spec_max_poly_degree(), C::spec_modulus())
                                && rem.ring() == ring_seq(rs, C::spec_max_poly_degree(), C::spec_modulus());
                        lemma_division_ring(ri_prev, ri_cur, q, rem, qs, rs1);
                        quo = qs;
                        rs = rs1;
                    }
                    assert forall|k: int| #[trigger] get(ri_prev.ints(), k) % C::spec_modulus() == get(
                        padd(conv_seq(quo, ri_cur.ints()), rs),
                        k,
                    ) % C::spec_modulus() by {
                        crate::primitives::poly::algebra::lemma_get_padd(conv_seq(quo, ri_cur.ints()), rs, k);
                        if ri_prev.coeffs@.len() == 0 {
                            crate::primitives::poly::algebra::lemma_get_conv_seq(quo, ri_cur.ints(), k);
                            assert(crate::primitives::poly::algebra::conv_upto(quo, ri_cur.ints(), k, 0) == 0);
                        }
                    }
                    assert(rs.len() <= C::spec_max_poly_degree());
                    if ri_prev.coeffs@.len() == 0 {
                        assert forall|k: int| #[trigger] get(rem.ints(), k) % C::spec_modulus() == get(rs, k) % C::spec_modulus() by {}
                    } else {
                        lemma_remainder_cong(rem, rs);
                    }
                    lemma_combination_step(a.ints(), u1, u2, ri_prev.ints(), ri_cur.ints(), quo, rs, rem.ints(), C::spec_modulus());
                    lemma_combination_step(b.ints(), v1, v2, ri_prev.ints(), ri_cur.ints(), quo, rs, rem.ints(), C::spec_modulus());
                    lemma_linear_step(
                        a.ints(),
                        b.ints(),
                        ri_prev.ints(),
                        ri_cur.ints(),
                        xs1,
                        ys1,
                        xs2,
                        ys2,
                        quo,
                        rs,
                        rem.ints(),
                        C::spec_modulus(),
                    );
                }
                let ghost (x0, y0, x1, y1, r0, r1) = (x_prev, y_prev, x_cur, y_cur, ri_prev, ri_cur);
                ri_cur = rem;
                ri_prev = ri_aux;
                let (xc, xp) = update_diophantine(x_prev, x_cur, &q);
                x_cur = xc;
                x_prev = xp;
                let (yc, yp) = update_diophantine(y_prev, y_cur, &q);
                y_cur = yc;
                y_prev = yp;
                proof {
                    lemma_bezout_step(*a, *b, x0, y0, r0, x1, y1, r1, q, rem, x_cur, y_cur);
                    assert(x_prev.ints() == x1.ints());
                    assert(y_prev.ints() == y1.ints());
                    assert(ri_prev.ints() == r1.ints());
                    assert(ri_prev.ring() == r1.ring());
                    let nu1 = padd(conv_seq(u1, quo), u2);
                    let nv1 = padd(conv_seq(v1, quo), v2);
                    let nxs2 = psub(xs1, conv_seq(quo, xs2));
                    let nys2 = psub(ys1, conv_seq(quo, ys2));
                    xs1 = xs2;
                    ys1 = ys2;
                    xs2 = nxs2;
                    ys2 = nys2;
                    u2 = u1;
                    u1 = nu1;
                    v2 = v1;
                    v1 = nv1;
                }
            },
        }
    }
    proof {
        assert forall|c: Seq<int>|
            divides_poly(c, a.ints(), C::spec_modulus()) && divides_poly(c, b.ints(), C::spec_modulus()) implies #[trigger] divides_poly(
            c,
            ri_prev.ints(),
            C::spec_modulus(),
        ) by {
            lemma_common_divisor(c, a.ints(), b.ints(), ri_prev.ints(), xs1, ys1, C::spec_modulus());
        }
        C::lemma_modulus_prime();
        if is_prime(C::spec_modulus()) {
            assert(ri_cur.ints() == Seq::<int>::empty());
            lemma_combination_divides(a.ints(), u1, u2, ri_prev.ints(), C::spec_modulus());
            lemma_combination_divides(b.ints(), v1, v2, ri_prev.ints(), C::spec_modulus());
        }
    }
    (x_prev, y_prev, ri_prev)
}

impl<C: PolyConf> Poly<C> {
    /// Constructs and returns the polynomial modulus `X^N + 1`, in its canonical but unreduced
    /// form.
    pub fn new_unreduced_poly_modulus_slow() -> (r: Self)
        ensures
            r.coeffs@ == poly_modulus_coeffs(C::spec_max_poly_degree()),
            r.wf(),
            trimmed(r.coeffs@),
    {
        new_unreduced_poly_modulus_slow()
    }

    /// Returns the inverse of `self` in the cyclotomic ring, if it exists, or an error: see
    /// [`inverse`].
    pub fn inverse(&self) -> (r: Result<Self, &'static str>)
        requires
            self.is_canonical(),
        ensures
            match r {
                Ok(inv) => inv.is_canonical() && ring_times(*self, inv) == ring_seq(
                    seq![1int],
                    C::spec_max_poly_degree(),
                    C::spec_modulus(),
                ),
                Err(_) => true,
            },
            self.coeffs@.len() == 0 ==> r is Err,
            r is Err <==> !has_inverse(*self),
    {
        inverse(self)
    }
}

/// Returns the inverse of `a` in the cyclotomic ring, if it exists, or an error.
///
/// When the last non-zero remainder `d` of the extended Euclidean algorithm on `X^N + 1` and `a`
/// is a constant, its Bezout coefficient `y` for `a`, divided by that constant, is the inverse:
/// `x (X^N + 1) + y a = d` is `y a = d` in the ring. The modulus is prime, so the error comes
/// exactly when `a` has no inverse: `d` divides both `X^N + 1` and `a`, and is then zero or of
/// positive degree.
pub fn inverse<C: PolyConf>(a: &Poly<C>) -> (r: Result<Poly<C>, &'static str>)
    requires
        a.is_canonical(),
    ensures
        match r {
            Ok(inv) => inv.is_canonical() && ring_times(*a, inv) == ring_seq(
                seq![1int],
                C::spec_max_poly_degree(),
                C::spec_modulus(),
            ),
            Err(_) => true,
        },
        a.coeffs@.len() == 0 ==> r is Err,
        r is Err <==> !has_inverse(*a),
{
    proof {
        C::lemma_conf_valid();
        C::lemma_modulus_prime();
    }
    let unreduced_mod_pol = Poly::<C>::new_unreduced_poly_modulus_slow();
    let (_x, y, d) = extended_gcd(&unreduced_mod_pol, a);
    if d.is_zero() || d.degree() > 0 {
        proof {
            // for a prime modulus, the common divisor d rules out an inverse
            if is_prime(C::spec_modulus()) {
                lemma_modulus_coeffs::<C>(unreduced_mod_pol);
                assert forall|b: Seq<int>|
                    #[trigger] ring_mul(a.ints(), b, C::spec_max_poly_degree(), C::spec_modulus()) != ring_seq(
                        seq![1int],
                        C::spec_max_poly_degree(),
                        C::spec_modulus(),
                    ) by {
                    lemma_no_inverse(unreduced_mod_pol.ints(), a.ints(), d.ints(), b, C::spec_max_poly_degree(), C::spec_modulus());
                }
            }
        }
        if d.is_zero() {
            return Err("Can't invert the zero polynomial");
        }
        return Err("Non-invertible polynomial");
    }
    let content_inv = match inv_mod(d.coeffs[0], C::modulus()) {
        Some(c) => c,
        None => {
            proof {
                // a non-zero constant has an inverse modulo a prime
                if is_prime(C::spec_modulus()) {
                    let c = d.coeffs@[0] as int;
                    vstd::arithmetic::div_mod::lemma_small_mod(c as nat, C::spec_modulus() as nat);
                    let x = lemma_prime_inverse(C::spec_modulus(), c);
                    assert(((d.coeffs@[0] * x) % C::spec_modulus()) == 1);
                }
            }
            return Err("Non-invertible polynomial");
        },
    };
    let ghost y0 = y;
    let mut inv = y;
    inv.mul_assign_scalar(content_inv);
    proof {
        lemma_inverse_from_bezout(*a, _x, y0, d, unreduced_mod_pol, content_inv, inv);
        assert(ring_mul(a.ints(), inv.ints(), C::spec_max_poly_degree(), C::spec_modulus()) == ring_seq(
            seq![1int],
            C::spec_max_poly_degree(),
            C::spec_modulus(),
        ));
    }
    Ok(inv)
}

} // verus!
