//! The simple Hamming encoding: a message and its reverse, so that the product of the
//! differences of two encodings holds their Hamming distance.
use rand::rngs::ThreadRng;
use vstd::prelude::*;

use crate::primitives::poly::algebra::{get, negacyclic, negacyclic_term};
use crate::primitives::poly::ring::{lemma_nega_add_left, lemma_nega_cong, nega, nega_seq, nega_terms};
use crate::primitives::yashe::correctness::{decryption_noise, is_private_key_of, is_public_key_of, lemma_canonical_facts};
use crate::primitives::yashe::product::{lemma_decrypt_product, lemma_key_product, key_wraps, noise_seq, product_noise, small_key};
use crate::primitives::sum::{lemma_sum_ext, lemma_sum_split, lemma_sum_zero, sum};
use crate::primitives::poly::conf::PolyConf;
use crate::primitives::poly::Poly;
use crate::primitives::yashe::conf::{LiftConf, YasheConf};
use crate::primitives::yashe::{
    decode, delta, is_encryption, lemma_is_encryption_coeffs, ring_product, scale_coeff, Ciphertext, Message, PrivateKey, PublicKey,
    Yashe,
};

verus! {

/// A message, and its first `size` coefficients in reverse order, so that the Hamming distance
/// can be computed later.
pub struct SimpleHammingEncoding<C: YasheConf> {
    /// The message.
    pub m: Message<C>,
    /// The first `size` coefficients of the message, reversed.
    pub m_rev: Message<C>,
}

/// The encryptions of the two messages of a [`SimpleHammingEncoding`].
pub struct SimpleHammingEncodingCiphertext<C: YasheConf> {
    /// The ciphertext of the message.
    pub c: Ciphertext<C>,
    /// The ciphertext of the reversed message.
    pub c_rev: Ciphertext<C>,
}

/// The number of indexes below `size` where `a` and `b` differ.
pub open spec fn count_differing<C: PolyConf>(a: Poly<C>, b: Poly<C>, size: nat) -> nat
    decreases size,
{
    if size == 0 {
        0
    } else {
        count_differing(a, b, (size - 1) as nat) + if a.coeff(size - 1) != b.coeff(size - 1) {
            1nat
        } else {
            0nat
        }
    }
}

impl<C: YasheConf> SimpleHammingEncoding<C> {
    /// Creates a new encoding of the message `m`, with its first `size` coefficients reversed.
    pub fn new(m: Message<C>, size: usize) -> (r: Self)
        requires
            m.m.is_canonical(),
            size <= C::spec_max_poly_degree(),
        ensures
            r.m.m.coeffs@ == m.m.coeffs@,
            r.m_rev.m.is_canonical(),
            forall|i: int| 0 <= i < size ==> #[trigger] r.m_rev.m.coeff(i) == m.m.coeff(size - 1 - i),
            forall|i: int| size <= i ==> #[trigger] r.m_rev.m.coeff(i) == 0,
    {
        let mut coeffs: Vec<u128> = Vec::new();
        let mut i: usize = 0;
        while i < size
            invariant
                i <= size,
                size <= C::spec_max_poly_degree(),
                m.m.is_canonical(),
                coeffs@.len() == i,
                forall|j: int| 0 <= j < i ==> #[trigger] coeffs@[j] as int == m.m.coeff(size - 1 - j),
                forall|j: int| 0 <= j < i ==> (#[trigger] coeffs@[j] as int) < C::spec_modulus(),
            decreases size - i,
        {
            let k = size - i - 1;
            let c = if k < m.m.coeffs.len() {
                m.m.coeffs[k]
            } else {
                0
            };
            proof {
                C::lemma_conf_valid();
            }
            coeffs.push(c);
            i += 1;
        }
        let m_rev = Message { m: Poly::from_coefficients_vec(coeffs) };
        SimpleHammingEncoding { m, m_rev }
    }

    /// Samples an encoding of a random binary message.
    pub fn sample(ctx: &Yashe<C>, size: usize, rng: &mut ThreadRng) -> (r: Self)
        requires
            size <= C::spec_max_poly_degree(),
        ensures
            r.m.m.is_canonical(),
            r.m_rev.m.is_canonical(),
            forall|i: int| 0 <= i < C::spec_max_poly_degree() ==> #[trigger] r.m.m.coeff(i) == 0 || r.m.m.coeff(i) == 1,
            forall|i: int| 0 <= i < size ==> #[trigger] r.m_rev.m.coeff(i) == r.m.m.coeff(size - 1 - i),
            forall|i: int| size <= i ==> #[trigger] r.m_rev.m.coeff(i) == 0,
    {
        let m = ctx.sample_binary_message(rng);
        let ghost gm = m.m;
        let r = Self::new(m, size);
        proof {
            assert(r.m.m.ints() == gm.ints());
            assert forall|i: int| 0 <= i < C::spec_max_poly_degree() implies #[trigger] r.m.m.coeff(i) == 0 || r.m.m.coeff(i) == 1 by {
                assert(r.m.m.coeff(i) == gm.coeff(i));
            }
        }
        r
    }

    /// The Hamming distance between the first `size` coefficients of the messages of `self`
    /// and `v2`, as a coefficient modulo `q`.
    pub fn hamming_distance(&self, v2: &SimpleHammingEncoding<C>, size: usize) -> (r: u128)
        ensures
            r == (count_differing(self.m.m, v2.m.m, size as nat) as int) % C::spec_modulus(),
    {
        proof {
            C::lemma_conf_valid();
        }
        let q = C::modulus();
        let mut res: u128 = 0;
        proof {
            vstd::arithmetic::div_mod::lemma_small_mod(0, q as nat);
        }
        let mut i: usize = 0;
        while i < size
            invariant
                i <= size,
                q == C::spec_modulus(),
                q > 2,
                res == (count_differing(self.m.m, v2.m.m, i as nat) as int) % (q as int),
            decreases size - i,
        {
            let a = if i < self.m.m.coeffs.len() {
                self.m.m.coeffs[i]
            } else {
                0
            };
            let b = if i < v2.m.m.coeffs.len() {
                v2.m.m.coeffs[i]
            } else {
                0
            };
            if a != b {
                proof {
                    let c = count_differing(self.m.m, v2.m.m, i as nat) as int;
                    vstd::arithmetic::div_mod::lemma_add_mod_noop(c, 1, q as int);
                    vstd::arithmetic::div_mod::lemma_mod_twice(c, q as int);
                    vstd::arithmetic::div_mod::lemma_small_mod(1, q as nat);
                    vstd::arithmetic::div_mod::lemma_mod_bound(c, q as int);
                    if res + 1 == q {
                        vstd::arithmetic::div_mod::lemma_mod_self_0(q as int);
                    } else {
                        vstd::arithmetic::div_mod::lemma_small_mod((res + 1) as nat, q as nat);
                    }
                }
                res = if res + 1 == q {
                    0
                } else {
                    res + 1
                };
            }
            i += 1;
        }
        res
    }

    /// Encrypts both messages of the encoding, with the sampled polynomials `(s, e)` given for
    /// each.
    pub fn encrypt_simple_hamming_encoding(
        &self,
        ctx: &Yashe<C>,
        pub_key: &PublicKey<C>,
        errors: (Poly<C>, Poly<C>),
        errors_rev: (Poly<C>, Poly<C>),
    ) -> (r: SimpleHammingEncodingCiphertext<C>)
        requires
            self.m.m.is_canonical(),
            self.m_rev.m.is_canonical(),
            pub_key.h.is_canonical(),
            errors.0.is_canonical(),
            errors.1.is_canonical(),
            errors_rev.0.is_canonical(),
            errors_rev.1.is_canonical(),
        ensures
            is_encryption(r.c.c, self.m.m, pub_key.h, errors.0, errors.1),
            is_encryption(r.c_rev.c, self.m_rev.m, pub_key.h, errors_rev.0, errors_rev.1),
    {
        let (s, e) = errors;
        let (s_rev, e_rev) = errors_rev;
        let m = self.m.clone();
        let m_rev = self.m_rev.clone();
        let ghost (gm, gm_rev) = (m.m, m_rev.m);
        let c = ctx.encrypt_with_errors(m, pub_key, s, e);
        let c_rev = ctx.encrypt_with_errors(m_rev, pub_key, s_rev, e_rev);
        proof {
            lemma_is_encryption_coeffs(c.c, gm, pub_key.h, errors.0, errors.1, self.m.m, errors.0, errors.1);
            lemma_is_encryption_coeffs(c_rev.c, gm_rev, pub_key.h, errors_rev.0, errors_rev.1, self.m_rev.m, errors_rev.0, errors_rev.1);
        }
        SimpleHammingEncodingCiphertext { c, c_rev }
    }
}


impl<C: YasheConf> SimpleHammingEncodingCiphertext<C> {
    /// Decrypts both ciphertexts of the encoding.
    pub fn decrypt_simple_hamming_encoding(&self, ctx: &Yashe<C>, priv_key: &PrivateKey<C>) -> (r: SimpleHammingEncoding<C>)
        requires
            self.c.c.is_canonical(),
            self.c_rev.c.is_canonical(),
            priv_key.priv_key.is_canonical(),
        ensures
            r.m.m.is_canonical(),
            r.m_rev.m.is_canonical(),
            forall|i: int|
                0 <= i < C::spec_max_poly_degree() ==> #[trigger] r.m.m.coeff(i) == decode::<C>(
                    crate::primitives::poly::algebra::get(ring_product(self.c.c, priv_key.priv_key), i),
                ),
            forall|i: int|
                0 <= i < C::spec_max_poly_degree() ==> #[trigger] r.m_rev.m.coeff(i) == decode::<C>(
                    crate::primitives::poly::algebra::get(ring_product(self.c_rev.c, priv_key.priv_key), i),
                ),
    {
        let m = ctx.decrypt(self.c.clone(), priv_key);
        let m_rev = ctx.decrypt(self.c_rev.clone(), priv_key);
        SimpleHammingEncoding { m, m_rev }
    }

    /// The homomorphic Hamming distance: the product of the differences of the two ciphertexts
    /// and of the two reversed ciphertexts.
    pub fn homomorphic_hamming_distance(&self, ctx: &Yashe<C>, c2: &SimpleHammingEncodingCiphertext<C>) -> (r: Ciphertext<C>)
        requires
            self.c.c.is_canonical(),
            self.c_rev.c.is_canonical(),
            c2.c.c.is_canonical(),
            c2.c_rev.c.is_canonical(),
        ensures
            r.c.is_canonical(),
            exists|d: Poly<C>, d_rev: Poly<C>|
                {
                    &&& d.is_canonical()
                    &&& d_rev.is_canonical()
                    &&& forall|i: int| #[trigger] d.coeff(i) == (self.c.c.coeff(i) - c2.c.c.coeff(i)) % C::spec_modulus()
                    &&& forall|i: int| #[trigger] d_rev.coeff(i) == (self.c_rev.c.coeff(i) - c2.c_rev.c.coeff(i)) % C::spec_modulus()
                    &&& forall|i: int|
                        0 <= i < C::spec_max_poly_degree() ==> #[trigger] r.c.coeff(i) == scale_coeff::<C>(
                            negacyclic(d.ints(), d_rev.ints(), C::spec_max_poly_degree(), i),
                        )
                },
    {
        let c = Ciphertext { c: self.c.c.sub(&c2.c.c) };
        let c_rev = Ciphertext { c: self.c_rev.c.sub(&c2.c_rev.c) };
        let ghost (d, d_rev) = (c.c, c_rev.c);
        let r = ctx.ciphertext_mul(c, c_rev);
        proof {
            assert(forall|i: int|
                0 <= i < C::spec_max_poly_degree() ==> #[trigger] r.c.coeff(i) == scale_coeff::<C>(
                    negacyclic(d.ints(), d_rev.ints(), C::spec_max_poly_degree(), i),
                ));
        }
        r
    }
}

/// The coefficient differences `a_i - b_i` of two polynomials, over the integers.
pub open spec fn coeff_diff<C: PolyConf>(a: Poly<C>, b: Poly<C>) -> Seq<int> {
    Seq::new(C::spec_max_poly_degree(), |i: int| a.coeff(i) - b.coeff(i))
}

/// The number of differing indexes below `size`, as a sum of indicators.
proof fn lemma_count_differing_sum<C: PolyConf>(a: Poly<C>, b: Poly<C>, size: nat)
    ensures
        sum(|i: int| if a.coeff(i) != b.coeff(i) { 1int } else { 0int }, size) == count_differing(a, b, size),
    decreases size,
{
    if size > 0 {
        lemma_count_differing_sum(a, b, (size - 1) as nat);
    }
}

/// The encoding works: for two encodings of binary messages, coefficient `size - 1` of the
/// product of the message differences and of the reversed message differences, in
/// `Z[X] / (X^N + 1)`, is the Hamming distance of the first `size` coefficients. Each index below
/// `size` meets its own reversed copy there, and contributes the square of its difference.
pub proof fn lemma_hamming_product<C: YasheConf>(v1: SimpleHammingEncoding<C>, v2: SimpleHammingEncoding<C>, size: nat)
    requires
        1 <= size <= C::spec_max_poly_degree(),
        forall|i: int| 0 <= i < C::spec_max_poly_degree() ==> #[trigger] v1.m.m.coeff(i) == 0 || v1.m.m.coeff(i) == 1,
        forall|i: int| 0 <= i < C::spec_max_poly_degree() ==> #[trigger] v2.m.m.coeff(i) == 0 || v2.m.m.coeff(i) == 1,
        forall|i: int| 0 <= i < size ==> #[trigger] v1.m_rev.m.coeff(i) == v1.m.m.coeff(size - 1 - i),
        forall|i: int| 0 <= i < size ==> #[trigger] v2.m_rev.m.coeff(i) == v2.m.m.coeff(size - 1 - i),
        forall|i: int| size <= i ==> #[trigger] v1.m_rev.m.coeff(i) == 0,
        forall|i: int| size <= i ==> #[trigger] v2.m_rev.m.coeff(i) == 0,
    ensures
        nega(coeff_diff(v1.m.m, v2.m.m), coeff_diff(v1.m_rev.m, v2.m_rev.m), C::spec_max_poly_degree(), size - 1)
            == count_differing(v1.m.m, v2.m.m, size),
{
    let n = C::spec_max_poly_degree();
    let k = size - 1;
    let d = coeff_diff(v1.m.m, v2.m.m);
    let dr = coeff_diff(v1.m_rev.m, v2.m_rev.m);
    let f = nega_terms(d, dr, n, k);
    let ind = |i: int| if v1.m.m.coeff(i) != v2.m.m.coeff(i) { 1int } else { 0int };
    // below size, each index meets its reversed copy
    assert forall|i: int| 0 <= i < size implies #[trigger] f(i) == ind(i) by {
        assert(get(dr, k - i) == v1.m_rev.m.coeff(k - i) - v2.m_rev.m.coeff(k - i));
        assert(v1.m_rev.m.coeff(k - i) == v1.m.m.coeff(i));
        assert(v2.m_rev.m.coeff(k - i) == v2.m.m.coeff(i));
        assert(v1.m.m.coeff(i) == 0 || v1.m.m.coeff(i) == 1);
        assert(v2.m.m.coeff(i) == 0 || v2.m.m.coeff(i) == 1);
    }
    // past it, the reversed differences vanish
    assert forall|i: int| 0 <= i < n - size implies #[trigger] f(size + i) == 0 by {
        assert(get(dr, k + n - (size + i)) == v1.m_rev.m.coeff(k + n - (size + i)) - v2.m_rev.m.coeff(k + n - (size + i)));
    }
    lemma_sum_split(f, size, (n - size) as nat);
    assert((size + (n - size) as nat) as nat == n);
    lemma_sum_zero(|i: int| f(size + i), (n - size) as nat);
    lemma_sum_ext(f, ind, size);
    lemma_count_differing_sum(v1.m.m, v2.m.m, size);
}

/// The difference of the decryption noises of the encryptions of `m1` and `m2`.
pub open spec fn diff_noise<C: YasheConf>(
    f: Poly<C>,
    g: Poly<C>,
    m1: Poly<C>,
    s1: Poly<C>,
    e1: Poly<C>,
    m2: Poly<C>,
    s2: Poly<C>,
    e2: Poly<C>,
) -> Seq<int> {
    Seq::new(C::spec_max_poly_degree(), |k: int| decryption_noise(f, g, s1, e1, m1, k) - decryption_noise(f, g, s2, e2, m2, k))
}

/// The multiples of `q` that the stored ciphertext `d` loses against the exact product with
/// the small key, when it carries the message `ms` with the noise `vs`:
/// `(d (t f + 1) - (q / t) ms - vs) / q`.
pub open spec fn diff_wraps<C: YasheConf>(f: Poly<C>, d: Poly<C>, ms: Seq<int>, vs: Seq<int>) -> Seq<int> {
    Seq::new(
        C::spec_max_poly_degree(),
        |k: int|
            (nega(d.ints(), small_key(f), C::spec_max_poly_degree(), k) - delta::<C>() * get(ms, k) - get(vs, k))
                / C::spec_modulus(),
    )
}

/// The difference `d = c1 - c2` of fresh encryptions of `m1` and `m2`, times the small key, is
/// exactly `(q / t) (m1 - m2)` plus the difference of the noises plus the multiples of `q` of
/// [`diff_wraps`].
proof fn lemma_diff_product<C: YasheConf>(
    f: Poly<C>,
    g: Poly<C>,
    tg: Poly<C>,
    private_key: PrivateKey<C>,
    public_key: PublicKey<C>,
    m1: Poly<C>,
    s1: Poly<C>,
    e1: Poly<C>,
    c1: Poly<C>,
    m2: Poly<C>,
    s2: Poly<C>,
    e2: Poly<C>,
    c2: Poly<C>,
    d: Poly<C>,
)
    requires
        is_private_key_of(private_key, f),
        is_public_key_of(public_key, g, tg, private_key),
        m1.is_canonical(),
        s1.is_canonical(),
        e1.is_canonical(),
        is_encryption(c1, m1, public_key.h, s1, e1),
        m2.is_canonical(),
        s2.is_canonical(),
        e2.is_canonical(),
        is_encryption(c2, m2, public_key.h, s2, e2),
        d.is_canonical(),
        forall|i: int| #[trigger] d.coeff(i) == (c1.coeff(i) - c2.coeff(i)) % C::spec_modulus(),
    ensures
        forall|j: int|
            #[trigger] get(nega_seq(d.ints(), small_key(f), C::spec_max_poly_degree()), j) == delta::<C>() * get(
                coeff_diff(m1, m2),
                j,
            ) + get(diff_noise(f, g, m1, s1, e1, m2, s2, e2), j) + C::spec_modulus() * get(
                diff_wraps(f, d, coeff_diff(m1, m2), diff_noise(f, g, m1, s1, e1, m2, s2, e2)),
                j,
            ),
{
    C::lemma_conf_valid();
    C::lemma_yashe_conf_valid();
    let n = C::spec_max_poly_degree();
    let q = C::spec_modulus();
    let dd = delta::<C>();
    let key = small_key(f);
    let sigma = coeff_diff(m1, m2);
    let vd = diff_noise(f, g, m1, s1, e1, m2, s2, e2);
    let c12 = Seq::new(n, |i: int| c1.coeff(i) - c2.coeff(i));
    lemma_key_product(f, g, tg, private_key, public_key, m1, s1, e1, c1);
    lemma_key_product(f, g, tg, private_key, public_key, m2, s2, e2, c2);
    lemma_canonical_facts(c1);
    lemma_canonical_facts(c2);
    lemma_canonical_facts(d);
    lemma_canonical_facts(m1);
    lemma_canonical_facts(m2);
    assert forall|i: int| #[trigger] get(d.ints(), i) % q == get(c12, i) % q by {
        assert(d.coeff(i) == (c1.coeff(i) - c2.coeff(i)) % q);
        vstd::arithmetic::div_mod::lemma_mod_twice(c1.coeff(i) - c2.coeff(i), q);
        vstd::arithmetic::div_mod::lemma_small_mod(0, q as nat);
        if 0 <= i < n {
            assert(get(c12, i) == c1.coeff(i) - c2.coeff(i));
        } else {
            assert(get(c12, i) == 0);
            assert(d.coeff(i) == 0);
        }
    }
    assert forall|i: int| #[trigger] get(key, i) % q == get(key, i) % q by {}
    assert forall|i: int| #[trigger] get(c1.ints(), i) == get(c12, i) + get(c2.ints(), i) by {}
    assert forall|j: int|
        #[trigger] get(nega_seq(d.ints(), key, n), j) == dd * get(sigma, j) + get(vd, j) + q * get(diff_wraps(f, d, sigma, vd), j) by {
        if 0 <= j < n {
            let u = nega(d.ints(), key, n, j);
            let u1 = nega(c1.ints(), key, n, j);
            let u2 = nega(c2.ints(), key, n, j);
            let w = dd * get(sigma, j) + get(vd, j);
            lemma_nega_cong(d.ints(), c12, key, key, n, q, j);
            lemma_nega_add_left(c1.ints(), c12, c2.ints(), key, n, j);
            assert(get(nega_seq(c1.ints(), key, n), j) == u1);
            assert(get(nega_seq(c2.ints(), key, n), j) == u2);
            let k1 = get(key_wraps(f, g, s1, e1, m1, c1), j);
            let k2 = get(key_wraps(f, g, s2, e2, m2, c2), j);
            assert(u1 - u2 == w + q * (k1 - k2)) by (nonlinear_arith)
                requires
                    u1 == dd * get(m1.ints(), j) + get(noise_seq(f, g, s1, e1, m1), j) + q * k1,
                    u2 == dd * get(m2.ints(), j) + get(noise_seq(f, g, s2, e2, m2), j) + q * k2,
                    get(sigma, j) == get(m1.ints(), j) - get(m2.ints(), j),
                    get(vd, j) == get(noise_seq(f, g, s1, e1, m1), j) - get(noise_seq(f, g, s2, e2, m2), j),
                    w == dd * get(sigma, j) + get(vd, j),
            ;
            vstd::arithmetic::div_mod::lemma_mod_multiples_vanish(k1 - k2, w, q);
            assert(u % q == w % q);
            vstd::arithmetic::div_mod::lemma_sub_mod_noop(u, w, q);
            vstd::arithmetic::div_mod::lemma_small_mod(0, q as nat);
            vstd::arithmetic::div_mod::lemma_fundamental_div_mod(u - w, q);
        }
    }
}

/// The number of differing indexes below `size` is at most `size`.
proof fn lemma_count_differing_bound<C: PolyConf>(a: Poly<C>, b: Poly<C>, size: nat)
    ensures
        count_differing(a, b, size) <= size,
    decreases size,
{
    if size > 0 {
        lemma_count_differing_bound(a, b, (size - 1) as nat);
    }
}

/// The homomorphic Hamming distance decrypts to the Hamming distance: for encodings `v1`, `v2`
/// of binary messages (see `SimpleHammingEncoding::sample`), encrypted into `ct1`, `ct2` with the
/// given samples under the keys derived from `f` and `g` (see
/// `SimpleHammingEncoding::encrypt_simple_hamming_encoding`), coefficient `size - 1` of their
/// homomorphic Hamming distance `r`, computed from the ciphertext differences `d` and `d_rev`
/// (see `SimpleHammingEncodingCiphertext::homomorphic_hamming_distance`) and decrypted with the
/// square of the private key `key2` (see `Yashe::decrypt_mul`), is the number of differing
/// coefficients below `size` modulo `t`, and is `SimpleHammingEncoding::hamming_distance` when
/// `size` is below `t`, whenever nothing wraps around the lifted modulus and the noise of
/// [`product_noise`] for the differences is small.
pub proof fn lemma_hamming_decrypt<C: YasheConf>(
    f: Poly<C>,
    g: Poly<C>,
    tg: Poly<C>,
    private_key: PrivateKey<C>,
    public_key: PublicKey<C>,
    key2: Poly<C>,
    v1: SimpleHammingEncoding<C>,
    v2: SimpleHammingEncoding<C>,
    ct1: SimpleHammingEncodingCiphertext<C>,
    ct2: SimpleHammingEncodingCiphertext<C>,
    s1: Poly<C>,
    e1: Poly<C>,
    s1_rev: Poly<C>,
    e1_rev: Poly<C>,
    s2: Poly<C>,
    e2: Poly<C>,
    s2_rev: Poly<C>,
    e2_rev: Poly<C>,
    d: Poly<C>,
    d_rev: Poly<C>,
    r: Poly<C>,
    size: nat,
)
    requires
        is_private_key_of(private_key, f),
        is_public_key_of(public_key, g, tg, private_key),
        key2.is_canonical(),
        key2.ring() == ring_product(private_key.priv_key, private_key.priv_key),
        1 <= size <= C::spec_max_poly_degree(),
        v1.m.m.is_canonical(),
        v1.m_rev.m.is_canonical(),
        v2.m.m.is_canonical(),
        v2.m_rev.m.is_canonical(),
        forall|i: int| 0 <= i < C::spec_max_poly_degree() ==> #[trigger] v1.m.m.coeff(i) == 0 || v1.m.m.coeff(i) == 1,
        forall|i: int| 0 <= i < C::spec_max_poly_degree() ==> #[trigger] v2.m.m.coeff(i) == 0 || v2.m.m.coeff(i) == 1,
        forall|i: int| 0 <= i < size ==> #[trigger] v1.m_rev.m.coeff(i) == v1.m.m.coeff(size - 1 - i),
        forall|i: int| 0 <= i < size ==> #[trigger] v2.m_rev.m.coeff(i) == v2.m.m.coeff(size - 1 - i),
        forall|i: int| size <= i ==> #[trigger] v1.m_rev.m.coeff(i) == 0,
        forall|i: int| size <= i ==> #[trigger] v2.m_rev.m.coeff(i) == 0,
        s1.is_canonical(),
        e1.is_canonical(),
        s1_rev.is_canonical(),
        e1_rev.is_canonical(),
        s2.is_canonical(),
        e2.is_canonical(),
        s2_rev.is_canonical(),
        e2_rev.is_canonical(),
        is_encryption(ct1.c.c, v1.m.m, public_key.h, s1, e1),
        is_encryption(ct1.c_rev.c, v1.m_rev.m, public_key.h, s1_rev, e1_rev),
        is_encryption(ct2.c.c, v2.m.m, public_key.h, s2, e2),
        is_encryption(ct2.c_rev.c, v2.m_rev.m, public_key.h, s2_rev, e2_rev),
        d.is_canonical(),
        d_rev.is_canonical(),
        forall|i: int| #[trigger] d.coeff(i) == (ct1.c.c.coeff(i) - ct2.c.c.coeff(i)) % C::spec_modulus(),
        forall|i: int| #[trigger] d_rev.coeff(i) == (ct1.c_rev.c.coeff(i) - ct2.c_rev.c.coeff(i)) % C::spec_modulus(),
        forall|i: int|
            0 <= i < C::spec_max_poly_degree() ==> #[trigger] r.coeff(i) == scale_coeff::<C>(
                negacyclic(d.ints(), d_rev.ints(), C::spec_max_poly_degree(), i),
            ),
        r.coeffs@.len() <= C::spec_max_poly_degree(),
        forall|i: int|
            0 <= i < C::spec_max_poly_degree() ==> 2 * #[trigger] negacyclic(d.ints(), d_rev.ints(), C::spec_max_poly_degree(), i)
                <= C::PolyBN::spec_lifted_modulus() - 1 && -2 * negacyclic(d.ints(), d_rev.ints(), C::spec_max_poly_degree(), i)
                <= C::PolyBN::spec_lifted_modulus() - 1,
        -((C::spec_modulus() - 1) / 2) <= C::spec_t() * product_noise(
            f,
            coeff_diff(v1.m.m, v2.m.m),
            diff_noise(f, g, v1.m.m, s1, e1, v2.m.m, s2, e2),
            diff_wraps(f, d, coeff_diff(v1.m.m, v2.m.m), diff_noise(f, g, v1.m.m, s1, e1, v2.m.m, s2, e2)),
            d,
            coeff_diff(v1.m_rev.m, v2.m_rev.m),
            diff_noise(f, g, v1.m_rev.m, s1_rev, e1_rev, v2.m_rev.m, s2_rev, e2_rev),
            diff_wraps(
                f,
                d_rev,
                coeff_diff(v1.m_rev.m, v2.m_rev.m),
                diff_noise(f, g, v1.m_rev.m, s1_rev, e1_rev, v2.m_rev.m, s2_rev, e2_rev),
            ),
            d_rev,
            size - 1,
        ) - (C::spec_modulus() % (C::spec_t() as int)) * ((count_differing(v1.m.m, v2.m.m, size) as int) % (
        C::spec_t() as int)) <= (C::spec_modulus() - 1) / 2,
    ensures
        decode::<C>(get(ring_product(r, key2), size - 1)) == (count_differing(v1.m.m, v2.m.m, size) as int) % (
        C::spec_t() as int),
        size < C::spec_t() ==> decode::<C>(get(ring_product(r, key2), size - 1)) == (count_differing(
            v1.m.m,
            v2.m.m,
            size,
        ) as int) % C::spec_modulus(),
{
    C::lemma_conf_valid();
    C::lemma_yashe_conf_valid();
    let n = C::spec_max_poly_degree();
    let q = C::spec_modulus();
    let t = C::spec_t() as int;
    lemma_diff_product(f, g, tg, private_key, public_key, v1.m.m, s1, e1, ct1.c.c, v2.m.m, s2, e2, ct2.c.c, d);
    lemma_diff_product(
        f,
        g,
        tg,
        private_key,
        public_key,
        v1.m_rev.m,
        s1_rev,
        e1_rev,
        ct1.c_rev.c,
        v2.m_rev.m,
        s2_rev,
        e2_rev,
        ct2.c_rev.c,
        d_rev,
    );
    lemma_hamming_product(v1, v2, size);
    assert forall|i: int| 0 <= i < n implies #[trigger] get(r.ints(), i) == scale_coeff::<C>(
        negacyclic(d.ints(), d_rev.ints(), n, i),
    ) by {
        assert(r.coeff(i) == scale_coeff::<C>(negacyclic(d.ints(), d_rev.ints(), n, i)));
    }
    lemma_decrypt_product(
        f,
        private_key,
        key2,
        coeff_diff(v1.m.m, v2.m.m),
        diff_noise(f, g, v1.m.m, s1, e1, v2.m.m, s2, e2),
        diff_wraps(f, d, coeff_diff(v1.m.m, v2.m.m), diff_noise(f, g, v1.m.m, s1, e1, v2.m.m, s2, e2)),
        d,
        coeff_diff(v1.m_rev.m, v2.m_rev.m),
        diff_noise(f, g, v1.m_rev.m, s1_rev, e1_rev, v2.m_rev.m, s2_rev, e2_rev),
        diff_wraps(
            f,
            d_rev,
            coeff_diff(v1.m_rev.m, v2.m_rev.m),
            diff_noise(f, g, v1.m_rev.m, s1_rev, e1_rev, v2.m_rev.m, s2_rev, e2_rev),
        ),
        d_rev,
        r.ints(),
        size - 1,
    );
    let cnt = count_differing(v1.m.m, v2.m.m, size) as int;
    if size < t {
        lemma_count_differing_bound(v1.m.m, v2.m.m, size);
        vstd::arithmetic::div_mod::lemma_small_mod(cnt as nat, t as nat);
        vstd::arithmetic::div_mod::lemma_small_mod(cnt as nat, q as nat);
    }
}

} // verus!
