//! The YASHE cryptosystem, <https://eprint.iacr.org/2013/075.pdf>, without modulus or key
//! switching: a product of ciphertexts decrypts with the square of the private key.
//!
//! Sampling from a gaussian distribution is left to the caller: key generation and encryption
//! here take the sampled polynomials as arguments.
use core::marker::PhantomData;
use vstd::arithmetic::div_mod::*;
use vstd::arithmetic::mul::*;
use vstd::prelude::*;

use crate::primitives::field::add_mod;
use crate::primitives::poly::algebra::{get, lemma_ring_mul_get_ext, negacyclic, ring_mul, ring_seq};
use crate::primitives::poly::inv::invertible;
use crate::primitives::poly::conf::PolyConf;
use crate::primitives::poly::Poly;
use crate::primitives::wide::trunc_div;

pub mod conf;
pub mod correctness;
pub mod mul;
pub mod product;
pub mod sample;


pub use conf::{LiftConf, YasheConf};
use conf::yashe_params_valid;

verus! {

/// The YASHE scheme with parameters `C`.
#[derive(Copy, Debug)]
pub struct Yashe<C: YasheConf> {
    /// Binds the configuration to the scheme.
    pub conf: PhantomData<C>,
}

impl<C: YasheConf> Clone for Yashe<C> {
    fn clone(&self) -> (r: Self) {
        Yashe { conf: PhantomData }
    }
}

/// A private key.
pub struct PrivateKey<C: YasheConf> {
    /// The sampled polynomial, with small coefficients.
    pub f: Poly<C>,
    /// The inverse of the private key.
    pub priv_key_inv: Poly<C>,
    /// The private key, `t f + 1`.
    pub priv_key: Poly<C>,
}

/// A public key.
pub struct PublicKey<C: YasheConf> {
    /// The public key, `t g / (t f + 1)` for a sampled `g`.
    pub h: Poly<C>,
}

/// A plaintext message, encoded as a polynomial with coefficients modulo `t`.
pub struct Message<C: YasheConf> {
    /// The message polynomial.
    pub m: Poly<C>,
}

/// A ciphertext.
pub struct Ciphertext<C: YasheConf> {
    /// The ciphertext polynomial.
    pub c: Poly<C>,
}

impl<C: YasheConf> Clone for Message<C> {
    fn clone(&self) -> (r: Self)
        ensures
            r.m.coeffs@ == self.m.coeffs@,
    {
        Message { m: self.m.duplicate() }
    }
}

impl<C: YasheConf> Clone for Ciphertext<C> {
    fn clone(&self) -> (r: Self)
        ensures
            r.c.coeffs@ == self.c.coeffs@,
    {
        Ciphertext { c: self.c.duplicate() }
    }
}

/// `q / t`, the scale of a message inside a ciphertext.
pub open spec fn delta<C: YasheConf>() -> int {
    C::spec_modulus() / (C::spec_t() as int)
}

/// Decoding a coefficient of `c * key`: `round(t c / q) mod t`, rounding halves up.
pub open spec fn decode<C: YasheConf>(c: int) -> int {
    ((c * C::spec_t() + (C::spec_modulus() - 1) / 2) / C::spec_modulus()) % (C::spec_t() as int)
}

/// `x` lifted to the range centred on zero, `(-(m - 1)/2, (m - 1)/2]` for odd `m`.
pub open spec fn center_lift(x: int, m: int) -> int {
    if x % m > (m - 1) / 2 {
        x % m - m
    } else {
        x % m
    }
}

/// A product coefficient of two messages: centre lifted modulo `q`, then reduced modulo `t`.
pub open spec fn plain_mul_coeff<C: YasheConf>(c: int) -> int {
    center_lift(c, C::spec_modulus()) % (C::spec_t() as int)
}

/// The scaling step of ciphertext multiplication on one exact product coefficient: centre lift
/// modulo the lifted modulus, multiply by `t`, round away from zero by adding or subtracting
/// `(q - 1) / 2`, divide by `q` towards zero, and reduce modulo `q`.
pub open spec fn scale_coeff<C: YasheConf>(e: int) -> int {
    let q = C::spec_modulus();
    let x = center_lift(e, C::PolyBN::spec_lifted_modulus() as int) * C::spec_t();
    let y = if x > 0 {
        x + (q - 1) / 2
    } else {
        x - (q - 1) / 2
    };
    trunc_div(y, q) % q
}

/// `c` encrypts the message polynomial `m` under the public key `h` with the sampled
/// polynomials `s` and `e`: `c = s h + e + (q / t) m` in the ring.
pub open spec fn is_encryption<C: YasheConf>(c: Poly<C>, m: Poly<C>, h: Poly<C>, s: Poly<C>, e: Poly<C>) -> bool {
    &&& c.is_canonical()
    &&& forall|i: int|
        0 <= i < C::spec_max_poly_degree() ==> #[trigger] c.coeff(i) == (get(ring_product(s, h), i) + e.coeff(i) + delta::<C>()
            * m.coeff(i)) % C::spec_modulus()
}

/// Being an encryption only depends on the coefficients.
pub proof fn lemma_is_encryption_coeffs<C: YasheConf>(
    c: Poly<C>,
    m: Poly<C>,
    h: Poly<C>,
    s: Poly<C>,
    e: Poly<C>,
    m2: Poly<C>,
    s2: Poly<C>,
    e2: Poly<C>,
)
    requires
        is_encryption(c, m, h, s, e),
        m.coeffs@ == m2.coeffs@,
        s.coeffs@ == s2.coeffs@,
        e.coeffs@ == e2.coeffs@,
    ensures
        is_encryption(c, m2, h, s2, e2),
{
    assert(s.ints() == s2.ints());
    assert forall|i: int| 0 <= i < C::spec_max_poly_degree() implies #[trigger] c.coeff(i) == (get(ring_product(s2, h), i)
        + e2.coeff(i) + delta::<C>() * m2.coeff(i)) % C::spec_modulus() by {
        assert(c.coeff(i) == (get(ring_product(s, h), i) + e.coeff(i) + delta::<C>() * m.coeff(i)) % C::spec_modulus());
    }
}

/// The coefficients of the private key derived from the sample `f`: `t f + 1`, reduced modulo
/// `q`.
pub open spec fn private_key_coeffs<C: YasheConf>(f: Poly<C>) -> Seq<int> {
    Seq::new(
        C::spec_max_poly_degree(),
        |i: int| (C::spec_t() * f.coeff(i) + if i == 0 {
            1int
        } else {
            0int
        }) % C::spec_modulus(),
    )
}

/// The ring product of two polynomials, as a coefficient sequence.
pub open spec fn ring_product<C: PolyConf>(a: Poly<C>, b: Poly<C>) -> Seq<int> {
    ring_mul(a.ints(), b.ints(), C::spec_max_poly_degree(), C::spec_modulus())
}

impl<C: YasheConf> Yashe<C> {
    /// The scheme with parameters `C`.
    pub fn new() -> (r: Self) {
        Yashe { conf: PhantomData }
    }

    /// Encrypts a message with the sampled polynomials `s` and `e`: `s h + e + (q / t) m`.
    pub fn encrypt_with_errors(&self, m: Message<C>, public_key: &PublicKey<C>, s: Poly<C>, e: Poly<C>) -> (r: Ciphertext<C>)
        requires
            m.m.is_canonical(),
            public_key.h.is_canonical(),
            s.is_canonical(),
            e.is_canonical(),
        ensures
            is_encryption(r.c, m.m, public_key.h, s, e),
    {
        proof {
            C::lemma_conf_valid();
            C::lemma_yashe_conf_valid();
        }
        let sh = s.mul(&public_key.h);
        let mut c = sh.add(&e);
        let qdt = C::modulus() / (C::t() as u128);
        proof {
            lemma_div_is_strictly_smaller(C::spec_modulus(), C::spec_t() as int);
        }
        let mut mm = m.m;
        mm.mul_assign_scalar(qdt);
        c.add_assign(&mm);
        proof {
            sh.lemma_canonical_ring();
            assert forall|i: int| 0 <= i < C::spec_max_poly_degree() implies #[trigger] c.coeff(i) == (get(ring_product(s, public_key.h), i)
                + e.coeff(i) + delta::<C>() * m.m.coeff(i)) % C::spec_modulus() by {
                let q = C::spec_modulus();
                let x = sh.coeff(i) + e.coeff(i);
                lemma_add_mod_noop(x, mm.coeff(i), q);
                lemma_mod_twice(x, q);
                lemma_add_mod_noop(x, delta::<C>() * m.m.coeff(i), q);
                lemma_mod_twice(delta::<C>() * m.m.coeff(i), q);
            }
        }
        Ciphertext { c }
    }

    /// Decrypts a ciphertext.
    pub fn decrypt(&self, c: Ciphertext<C>, private_key: &PrivateKey<C>) -> (r: Message<C>)
        requires
            c.c.is_canonical(),
            private_key.priv_key.is_canonical(),
        ensures
            r.m.is_canonical(),
            forall|i: int|
                0 <= i < C::spec_max_poly_degree() ==> #[trigger] r.m.coeff(i) == decode::<C>(
                    get(ring_product(c.c, private_key.priv_key), i),
                ),
    {
        self.decrypt_helper(c, &private_key.priv_key)
    }

    /// Decrypts a product of two ciphertexts, with the square of the private key.
    pub fn decrypt_mul(&self, c: Ciphertext<C>, private_key: &PrivateKey<C>) -> (r: Message<C>)
        requires
            c.c.is_canonical(),
            private_key.priv_key.is_canonical(),
        ensures
            r.m.is_canonical(),
            exists|key: Poly<C>|
                {
                    &&& key.is_canonical()
                    &&& key.ring() == ring_product(private_key.priv_key, private_key.priv_key)
                    &&& forall|i: int|
                        0 <= i < C::spec_max_poly_degree() ==> #[trigger] r.m.coeff(i) == decode::<C>(get(ring_product(c.c, key), i))
                },
    {
        let key = private_key.priv_key.mul(&private_key.priv_key);
        self.decrypt_helper(c, &key)
    }

    /// Decrypts a ciphertext or a product, given the key for it: the private key for a
    /// ciphertext, its square for a product of two.
    pub fn decrypt_helper(&self, c: Ciphertext<C>, modified_private_key: &Poly<C>) -> (r: Message<C>)
        requires
            c.c.is_canonical(),
            modified_private_key.is_canonical(),
        ensures
            r.m.is_canonical(),
            forall|i: int|
                0 <= i < C::spec_max_poly_degree() ==> #[trigger] r.m.coeff(i) == decode::<C>(
                    get(ring_product(c.c, *modified_private_key), i),
                ),
    {
        proof {
            C::lemma_conf_valid();
            C::lemma_yashe_conf_valid();
        }
        let res = c.c.mul(modified_private_key);
        proof {
            res.lemma_canonical_ring();
        }
        let q = C::modulus();
        let t = C::t() as u128;
        let half = (q - 1) / 2;
        let n = res.coeffs.len();
        let mut coeffs: Vec<u128> = Vec::new();
        let mut i: usize = 0;
        while i < n
            invariant
                i <= n,
                n == res.coeffs@.len(),
                res.is_canonical(),
                q == C::spec_modulus(),
                t == C::spec_t(),
                half == (q - 1) / 2,
                yashe_params_valid(C::spec_t(), C::spec_modulus(), C::spec_max_poly_degree(), C::PolyBN::spec_lifted_modulus()),
                q < 0x1_0000_0000_0000_0000_0000,
                coeffs@.len() == i,
                forall|j: int| 0 <= j < i ==> coeffs@[j] as int == decode::<C>(res.coeffs@[j] as int),
            decreases n - i,
        {
            let x = res.coeffs[i];
            proof {
                assert(x < q);
                assert(x * t <= 0x1_0000_0000_0000_0000_0000 * 0x1_0000) by (nonlinear_arith)
                    requires x < 0x1_0000_0000_0000_0000_0000, t <= 0x1_0000;
            }
            let d = ((x * t + half) / q) % t;
            coeffs.push(d);
            i += 1;
        }
        let mut m = Poly::<C>::from_coefficients_vec(coeffs);
        proof {
            assert forall|i: int| 0 <= i < C::spec_max_poly_degree() implies #[trigger] m.coeff(i) == decode::<C>(
                get(ring_product(c.c, *modified_private_key), i),
            ) by {
                if i >= n {
                    assert((C::spec_modulus() - 1) / 2 < C::spec_modulus());
                    lemma_basic_div((C::spec_modulus() - 1) / 2, C::spec_modulus());
                    lemma_small_mod(0, C::spec_t());
                }
            }
        }
        Message { m }
    }

    /// Plaintext addition: coefficients added modulo `q`, then reduced modulo `t`.
    pub fn plaintext_add(&self, m1: Message<C>, m2: Message<C>) -> (r: Message<C>)
        requires
            m1.m.is_canonical(),
            m2.m.is_canonical(),
        ensures
            r.m.is_canonical(),
            forall|i: int| #[trigger] r.m.coeff(i) == ((m1.m.coeff(i) + m2.m.coeff(i)) % C::spec_modulus()) % (C::spec_t() as int),
    {
        proof {
            C::lemma_conf_valid();
            C::lemma_yashe_conf_valid();
        }
        let res = m1.m.add(&m2.m);
        let t = C::t() as u128;
        let n = res.coeffs.len();
        let mut coeffs: Vec<u128> = Vec::new();
        let mut i: usize = 0;
        while i < n
            invariant
                i <= n,
                n == res.coeffs@.len(),
                t == C::spec_t(),
                t >= 2,
                coeffs@.len() == i,
                forall|j: int| 0 <= j < i ==> coeffs@[j] as int == (res.coeffs@[j] as int) % (t as int),
            decreases n - i,
        {
            coeffs.push(res.coeffs[i] % t);
            i += 1;
        }
        let m = Poly::<C>::from_coefficients_vec(coeffs);
        proof {
            assert forall|i: int| #[trigger] m.coeff(i) == ((m1.m.coeff(i) + m2.m.coeff(i)) % C::spec_modulus()) % (C::spec_t() as int) by {
                assert(res.coeff(i) == (m1.m.coeff(i) + m2.m.coeff(i)) % C::spec_modulus());
                if !(0 <= i < n) {
                    lemma_small_mod(0, C::spec_t());
                }
            }
        }
        Message { m }
    }

    /// Plaintext multiplication: the ring product, centre lifted modulo `q` before reducing
    /// modulo `t`.
    pub fn plaintext_mul(&self, m1: Message<C>, m2: Message<C>) -> (r: Message<C>)
        requires
            m1.m.is_canonical(),
            m2.m.is_canonical(),
        ensures
            r.m.is_canonical(),
            forall|i: int|
                0 <= i < C::spec_max_poly_degree() ==> #[trigger] r.m.coeff(i) == plain_mul_coeff::<C>(get(ring_product(m1.m, m2.m), i)),
    {
        proof {
            C::lemma_conf_valid();
            C::lemma_yashe_conf_valid();
        }
        let res = m1.m.mul(&m2.m);
        proof {
            res.lemma_canonical_ring();
        }
        let q = C::modulus();
        let t = C::t() as u128;
        let half = (q - 1) / 2;
        let n = res.coeffs.len();
        let mut coeffs: Vec<u128> = Vec::new();
        let mut i: usize = 0;
        while i < n
            invariant
                i <= n,
                n == res.coeffs@.len(),
                res.is_canonical(),
                q == C::spec_modulus(),
                t == C::spec_t(),
                2 <= t < q,
                half == (q - 1) / 2,
                coeffs@.len() == i,
                forall|j: int| 0 <= j < i ==> coeffs@[j] as int == plain_mul_coeff::<C>(res.coeffs@[j] as int),
            decreases n - i,
        {
            let x = res.coeffs[i];
            proof {
                assert(x < q);
                lemma_small_mod(x as nat, q as nat);
            }
            let d = if x > half {
                // the centre lift is x - q, negative
                let m = (q - x) % t;
                if m == 0 {
                    0
                } else {
                    t - m
                }
            } else {
                x % t
            };
            proof {
                if x > half {
                    let neg = x - q;
                    let m = ((q - x) as int) % (t as int);
                    lemma_fundamental_div_mod((q - x) as int, t as int);
                    lemma_mod_bound((q - x) as int, t as int);
                    let k = (q - x) as int / t as int;
                    if m == 0 {
                        assert(neg == (-k) * t + 0) by (nonlinear_arith)
                            requires (q - x) as int == (t as int) * k + m, m == 0, neg == x - q;
                        lemma_fundamental_div_mod_converse(neg, t as int, -k, 0);
                    } else {
                        assert(neg == (-k - 1) * t + (t - m)) by (nonlinear_arith)
                            requires (q - x) as int == (t as int) * k + m, neg == x - q;
                        lemma_fundamental_div_mod_converse(neg, t as int, -k - 1, (t - m) as int);
                    }
                }
            }
            coeffs.push(d);
            i += 1;
        }
        let m = Poly::<C>::from_coefficients_vec(coeffs);
        proof {
            assert forall|i: int| 0 <= i < C::spec_max_poly_degree() implies #[trigger] m.coeff(i) == plain_mul_coeff::<C>(
                get(ring_product(m1.m, m2.m), i),
            ) by {
                if i >= n {
                    lemma_small_mod(0, C::spec_modulus() as nat);
                    lemma_small_mod(0, C::spec_t());
                }
            }
        }
        Message { m }
    }

    /// Ciphertext addition: the sum of the ciphertext polynomials.
    pub fn ciphertext_add(&self, c1: Ciphertext<C>, c2: Ciphertext<C>) -> (r: Ciphertext<C>)
        requires
            c1.c.is_canonical(),
            c2.c.is_canonical(),
        ensures
            r.c.is_canonical(),
            forall|i: int| #[trigger] r.c.coeff(i) == (c1.c.coeff(i) + c2.c.coeff(i)) % C::spec_modulus(),
    {
        let c = c1.c.add(&c2.c);
        Ciphertext { c }
    }
}


impl<C: YasheConf> Yashe<C> {
    /// Derives a private key from the sampled polynomial `f`: `t f + 1` and its inverse. Returns
    /// `None` exactly when `t f + 1` has no inverse, so that the caller samples again.
    pub fn private_key_from_sample(&self, f: Poly<C>) -> (r: Option<PrivateKey<C>>)
        requires
            f.is_canonical(),
        ensures
            match r {
                Some(k) => {
                    &&& k.f.coeffs@ == f.coeffs@
                    &&& k.priv_key.is_canonical()
                    &&& k.priv_key_inv.is_canonical()
                    &&& forall|i: int|
                        0 <= i < C::spec_max_poly_degree() ==> #[trigger] k.priv_key.coeff(i) == (C::spec_t() * f.coeff(i) + if i
                            == 0 {
                            1int
                        } else {
                            0int
                        }) % C::spec_modulus()
                    &&& ring_product(k.priv_key, k.priv_key_inv) == ring_seq(
                        seq![1int],
                        C::spec_max_poly_degree(),
                        C::spec_modulus(),
                    )
                },
                None => true,
            },
            r is None <==> !invertible(private_key_coeffs(f), C::spec_max_poly_degree(), C::spec_modulus()),
    {
        proof {
            C::lemma_conf_valid();
            C::lemma_yashe_conf_valid();
            C::lemma_modulus_prime();
        }
        let q = C::modulus();
        let mut pk = f.duplicate();
        pk.mul_assign_scalar(C::t() as u128);
        let ghost scaled = pk;
        if pk.coeffs.len() == 0 {
            pk.coeffs.push(1);
        } else {
            let c0 = add_mod(pk.coeffs[0], 1, q);
            pk.coeffs.set(0, c0);
        }
        proof {
            assert(pk.wf());
            assert forall|i: int| 0 <= i < C::spec_max_poly_degree() implies #[trigger] pk.coeff(i) == (C::spec_t() * f.coeff(i)
                + if i == 0 {
                1int
            } else {
                0int
            }) % C::spec_modulus() by {
                let qi = C::spec_modulus();
                let x = C::spec_t() * f.coeff(i);
                assert(scaled.coeff(i) == x % qi);
                if i == 0 {
                    lemma_add_mod_noop(x, 1, qi);
                    lemma_mod_twice(x, qi);
                    lemma_small_mod(1, qi as nat);
                    if scaled.coeffs@.len() == 0 {
                        lemma_small_mod(1, qi as nat);
                    }
                } else {
                    assert(pk.coeff(i) == scaled.coeff(i));
                }
            }
        }
        let ghost before = pk;
        pk.truncate_to_canonical_form();
        proof {
            assert forall|i: int| 0 <= i < C::spec_max_poly_degree() implies #[trigger] pk.coeff(i) == (C::spec_t() * f.coeff(i)
                + if i == 0 {
                1int
            } else {
                0int
            }) % C::spec_modulus() by {
                assert(pk.dense()[i] == pk.coeff(i));
                assert(before.dense()[i] == before.coeff(i));
            }
        }
        proof {
            // t f + 1 and its stored form have the same ring products
            pk.lemma_canonical_ring();
            assert forall|i: int| #[trigger] get(pk.ints(), i) == get(private_key_coeffs(f), i) by {
                if 0 <= i < C::spec_max_poly_degree() {
                    assert(pk.coeff(i) == (C::spec_t() * f.coeff(i) + if i == 0 {
                        1int
                    } else {
                        0int
                    }) % C::spec_modulus());
                }
            }
            assert forall|b: Seq<int>|
                #[trigger] ring_mul(pk.ints(), b, C::spec_max_poly_degree(), C::spec_modulus()) == ring_mul(
                    private_key_coeffs(f),
                    b,
                    C::spec_max_poly_degree(),
                    C::spec_modulus(),
                ) by {
                lemma_ring_mul_get_ext(pk.ints(), private_key_coeffs(f), b, C::spec_max_poly_degree(), C::spec_modulus());
            }
            let n = C::spec_max_poly_degree();
            let qq = C::spec_modulus();
            if invertible(pk.ints(), n, qq) {
                let b = choose|b: Seq<int>| #[trigger] ring_mul(pk.ints(), b, n, qq) == ring_seq(seq![1int], n, qq);
                assert(ring_mul(private_key_coeffs(f), b, n, qq) == ring_seq(seq![1int], n, qq));
            }
            if invertible(private_key_coeffs(f), n, qq) {
                let b = choose|b: Seq<int>| #[trigger] ring_mul(private_key_coeffs(f), b, n, qq) == ring_seq(seq![1int], n, qq);
                assert(ring_mul(pk.ints(), b, n, qq) == ring_seq(seq![1int], n, qq));
            }
        }
        match pk.inverse() {
            Ok(priv_key_inv) => Some(PrivateKey { f, priv_key_inv, priv_key: pk }),
            Err(_) => None,
        }
    }

    /// Derives the public key from the sampled polynomial `g` and the private key:
    /// `t g / (t f + 1)`.
    pub fn public_key_from_sample(&self, g: Poly<C>, private_key: &PrivateKey<C>) -> (r: PublicKey<C>)
        requires
            g.is_canonical(),
            private_key.priv_key_inv.is_canonical(),
        ensures
            r.h.is_canonical(),
            exists|tg: Poly<C>|
                {
                    &&& tg.is_canonical()
                    &&& forall|i: int| #[trigger] tg.coeff(i) == (C::spec_t() * g.coeff(i)) % C::spec_modulus()
                    &&& r.h.ring() == ring_product(tg, private_key.priv_key_inv)
                },
    {
        proof {
            C::lemma_conf_valid();
            C::lemma_yashe_conf_valid();
        }
        let mut tg = g;
        tg.mul_assign_scalar(C::t() as u128);
        let h = tg.mul(&private_key.priv_key_inv);
        PublicKey { h }
    }
}

} // verus!
