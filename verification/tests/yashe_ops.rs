//! Tests for the YASHE cryptosystem: key generation, encryption, decryption, homomorphic
//! operations, and the homomorphic Hamming distance.

use eyelid_match_ops::primitives::hamming::SimpleHammingEncoding;
use eyelid_match_ops::primitives::poly::conf::PolyConf;
use eyelid_match_ops::primitives::poly::Poly;
use eyelid_match_ops::primitives::yashe::{Ciphertext, Message, PrivateKey, PublicKey, Yashe, YasheConf};
use eyelid_match_ops::{FullRes, MiddleRes};
use rand::rngs::ThreadRng;
use rand_distr::{Distribution, Normal};

/// The standard deviation for key generation sampling.
const KEY_DELTA: f64 = 3.2;
/// The standard deviation for encryption error sampling.
const ERROR_DELTA: f64 = 1.0;

fn sample_gaussian<C: PolyConf>(delta: f64, rng: &mut ThreadRng) -> Poly<C> {
    let q = C::modulus() as i128;
    let normal = Normal::new(0.0, delta).expect("constant parameters are valid");
    let coeffs: Vec<u128> = (0..C::max_poly_degree())
        .map(|_| {
            let v: f64 = normal.sample(rng);
            (v.round() as i64 as i128).rem_euclid(q) as u128
        })
        .collect();
    Poly::from_coefficients_vec(coeffs)
}

fn keygen<C: YasheConf>(ctx: &Yashe<C>, rng: &mut ThreadRng) -> (PrivateKey<C>, PublicKey<C>) {
    let private_key = loop {
        let f = sample_gaussian::<C>(KEY_DELTA, rng);
        if let Some(k) = ctx.private_key_from_sample(f) {
            break k;
        }
    };
    let g = sample_gaussian::<C>(KEY_DELTA, rng);
    let public_key = ctx.public_key_from_sample(g, &private_key);
    (private_key, public_key)
}

fn encrypt<C: YasheConf>(ctx: &Yashe<C>, m: Message<C>, public_key: &PublicKey<C>, rng: &mut ThreadRng) -> Ciphertext<C> {
    let s = sample_gaussian::<C>(ERROR_DELTA, rng);
    let e = sample_gaussian::<C>(ERROR_DELTA, rng);
    ctx.encrypt_with_errors(m, public_key, s, e)
}

/// A message with uniformly random coefficients in `[0, t)`.
fn sample_message<C: YasheConf>(ctx: &Yashe<C>, rng: &mut ThreadRng) -> Message<C> {
    Message { m: ctx.sample_uniform_range(0, C::t() - 1, rng) }
}

fn encrypt_decrypt_helper<C: YasheConf>(name: &str) {
    let mut rng = rand::thread_rng();
    let ctx: Yashe<C> = Yashe::new();

    let (private_key, public_key) = keygen(&ctx, &mut rng);
    let m = sample_message(&ctx, &mut rng);
    let c = encrypt(&ctx, m.clone(), &public_key, &mut rng);
    let m_dec = ctx.decrypt(c.clone(), &private_key);

    assert_eq!(m.m.coeffs, m_dec.m.coeffs, "{}", name);
}

#[test]
fn encrypt_decrypt_test() {
    encrypt_decrypt_helper::<MiddleRes>("MiddleRes");
    encrypt_decrypt_helper::<FullRes>("FullRes");
}

fn homomorphic_addition_helper<C: YasheConf>(name: &str) {
    let mut rng = rand::thread_rng();
    let ctx: Yashe<C> = Yashe::new();

    let (private_key, public_key) = keygen(&ctx, &mut rng);
    let m1 = sample_message(&ctx, &mut rng);
    let m2 = sample_message(&ctx, &mut rng);
    let c1 = encrypt(&ctx, m1.clone(), &public_key, &mut rng);
    let c2 = encrypt(&ctx, m2.clone(), &public_key, &mut rng);
    let m = ctx.plaintext_add(m1, m2);
    let c = ctx.ciphertext_add(c1, c2);
    // Additions can be regularly decrypted using the private key
    let m_dec = ctx.decrypt(c.clone(), &private_key);

    assert_eq!(m.m.coeffs, m_dec.m.coeffs, "addition test failed for {}", name);
}

fn homomorphic_multiplication_helper_negative<C: YasheConf>(name: &str) {
    let mut rng = rand::thread_rng();
    let ctx: Yashe<C> = Yashe::new();

    let (private_key, public_key) = keygen(&ctx, &mut rng);
    let m1 = sample_message(&ctx, &mut rng);
    let m2 = sample_message(&ctx, &mut rng);
    let c1 = encrypt(&ctx, m1.clone(), &public_key, &mut rng);
    let c2 = encrypt(&ctx, m2.clone(), &public_key, &mut rng);
    let m = ctx.plaintext_mul(m1, m2);
    let c = ctx.ciphertext_mul(c1, c2);
    // Multiplications can't be regularly decrypted using the private key
    let m_dec = ctx.decrypt(c.clone(), &private_key);

    assert_ne!(m.m.coeffs, m_dec.m.coeffs, "negative multiplication test failed for {}", name);
}

fn homomorphic_multiplication_helper_positive<C: YasheConf>(name: &str, ternary: bool) {
    let mut rng = rand::thread_rng();
    let ctx: Yashe<C> = Yashe::new();

    let (private_key, public_key) = keygen(&ctx, &mut rng);
    let (m1, m2) = if ternary {
        (ctx.sample_ternary_message(&mut rng), ctx.sample_ternary_message(&mut rng))
    } else {
        (sample_message(&ctx, &mut rng), sample_message(&ctx, &mut rng))
    };
    let c1 = encrypt(&ctx, m1.clone(), &public_key, &mut rng);
    let c2 = encrypt(&ctx, m2.clone(), &public_key, &mut rng);
    let m = ctx.plaintext_mul(m1, m2);
    let c = ctx.ciphertext_mul(c1, c2);
    let m_dec = ctx.decrypt_mul(c.clone(), &private_key);

    assert_eq!(m.m.coeffs, m_dec.m.coeffs, "positive multiplication test failed for {}", name);
}

#[test]
fn homomorphic_addition_test() {
    homomorphic_addition_helper::<MiddleRes>("MiddleRes");
    homomorphic_addition_helper::<FullRes>("FullRes");
}

#[test]
fn homomorphic_negative_multiplication_test() {
    homomorphic_multiplication_helper_negative::<MiddleRes>("MiddleRes");
    homomorphic_multiplication_helper_negative::<FullRes>("FullRes");
}

#[test]
fn homomorphic_positive_multiplication_test() {
    homomorphic_multiplication_helper_positive::<MiddleRes>("MiddleRes", false);
    homomorphic_multiplication_helper_positive::<MiddleRes>("MiddleRes", true);
    homomorphic_multiplication_helper_positive::<FullRes>("FullRes", false);
    homomorphic_multiplication_helper_positive::<FullRes>("FullRes", true);
}

fn keygen_helper<C: YasheConf>() {
    let mut rng = rand::thread_rng();
    let ctx: Yashe<C> = Yashe::new();
    let (private_key, public_key) = keygen(&ctx, &mut rng);

    let priv_key_inv = private_key.priv_key.inverse();

    let q = C::modulus();
    let f0 = private_key.f.coeffs.first().copied().unwrap_or(0);
    let p0 = private_key.priv_key.coeffs.first().copied().unwrap_or(0);
    assert_eq!((f0 * C::t() as u128 % q + 1) % q, p0);

    let inv = priv_key_inv.expect("Private key must be invertible");
    assert_eq!(private_key.priv_key.mul(&inv).coeffs, Poly::<C>::one().coeffs);

    assert!(public_key.h.degree() < C::max_poly_degree());
}

#[test]
fn test_keygen() {
    keygen_helper::<FullRes>();
}

fn hamming_distance_helper<C: YasheConf>() {
    let mut rng = rand::thread_rng();
    let ctx: Yashe<C> = Yashe::new();
    let (private_key, public_key) = keygen(&ctx, &mut rng);
    // Must be smaller than or equal to the polynomial degree
    let size = 1000;

    let v1 = SimpleHammingEncoding::sample(&ctx, size, &mut rng);
    let v2 = SimpleHammingEncoding::sample(&ctx, size, &mut rng);
    let (s1, e1) = (sample_gaussian::<C>(ERROR_DELTA, &mut rng), sample_gaussian::<C>(ERROR_DELTA, &mut rng));
    let (s1r, e1r) = (sample_gaussian::<C>(ERROR_DELTA, &mut rng), sample_gaussian::<C>(ERROR_DELTA, &mut rng));
    let (s2, e2) = (sample_gaussian::<C>(ERROR_DELTA, &mut rng), sample_gaussian::<C>(ERROR_DELTA, &mut rng));
    let (s2r, e2r) = (sample_gaussian::<C>(ERROR_DELTA, &mut rng), sample_gaussian::<C>(ERROR_DELTA, &mut rng));
    let c1 = v1.encrypt_simple_hamming_encoding(&ctx, &public_key, (s1, e1), (s1r, e1r));
    let c2 = v2.encrypt_simple_hamming_encoding(&ctx, &public_key, (s2, e2), (s2r, e2r));
    let c = c1.homomorphic_hamming_distance(&ctx, &c2);
    let m = ctx.decrypt_mul(c, &private_key);

    let hd = v1.hamming_distance(&v2, size);
    assert_eq!(m.m.coeffs.get(size - 1).copied().unwrap_or(0), hd);
}

#[test]
fn test_hamming_distance() {
    hamming_distance_helper::<FullRes>();
}

#[test]
fn hamming_distance_exact_value() {
    // 1 0 1 1 against 0 0 1 0: two positions differ
    let a: Poly<MiddleRes> = Poly::from_coefficients_vec(vec![1, 0, 1, 1]);
    let b: Poly<MiddleRes> = Poly::from_coefficients_vec(vec![0, 0, 1]);
    let v1 = SimpleHammingEncoding::new(Message { m: a }, 4);
    let v2 = SimpleHammingEncoding::new(Message { m: b }, 4);
    assert_eq!(v1.hamming_distance(&v2, 4), 2);
    assert_eq!(v2.hamming_distance(&v1, 4), 2);
    assert_eq!(v1.hamming_distance(&v1, 4), 0);
}

#[test]
fn plaintext_operations_exact_values() {
    let ctx: Yashe<MiddleRes> = Yashe::new();
    let t = MiddleRes::t() as u128;
    // (t - 1) + 2 = 1 (mod t)
    let m1 = Message { m: Poly::<MiddleRes>::from_coefficients_vec(vec![t - 1, 3]) };
    let m2 = Message { m: Poly::<MiddleRes>::from_coefficients_vec(vec![2]) };
    assert_eq!(ctx.plaintext_add(m1.clone(), m2.clone()).m.coeffs, vec![1, 3]);
    // ((t - 1) + 3X) * 2 = 2t - 2 + 6X = -2 + 6X (mod t)
    assert_eq!(ctx.plaintext_mul(m1, m2).m.coeffs, vec![t - 2, 6]);
}

#[test]
fn uniform_sampling_stays_in_range() {
    let mut rng = rand::thread_rng();
    let ctx: Yashe<MiddleRes> = Yashe::new();
    let p = ctx.sample_uniform_range(3, 5, &mut rng);
    assert_eq!(p.coeffs.len(), MiddleRes::max_poly_degree());
    assert!(p.coeffs.iter().all(|c| (3..=5).contains(c)));
    let t = MiddleRes::t() as u128;
    let m = ctx.sample_ternary_message(&mut rng);
    assert!(m.m.coeffs.iter().all(|c| *c == 0 || *c == 1 || *c == t - 1));
    assert!(m.m.coeffs.iter().any(|c| *c == t - 1));
    let b = ctx.sample_binary_message(&mut rng);
    assert!(b.m.coeffs.iter().all(|c| *c == 0 || *c == 1));
    let u = ctx.sample_uniform_coeff(&mut rng);
    assert!(u.coeffs.iter().all(|c| *c < MiddleRes::modulus()));
    assert!(u.coeffs.iter().any(|c| *c > u64::MAX as u128));
}

#[test]
fn uniform_sampling_past_the_modulus_is_reduced() {
    let mut rng = rand::thread_rng();
    let ctx: Yashe<eyelid_match_ops::TinyTest> = Yashe::new();
    let q = eyelid_match_ops::TinyTest::modulus();
    let p = ctx.sample_uniform_range(0, 20, &mut rng);
    assert!(p.coeffs.iter().all(|c| *c < q));
    assert!(p.coeffs.len() <= eyelid_match_ops::TinyTest::max_poly_degree());
}

#[test]
fn ternary_mapping_sends_two_to_minus_one() {
    let ctx: Yashe<eyelid_match_ops::TinyTest> = Yashe::new();
    let t = eyelid_match_ops::TinyTest::t() as u128;
    let draw = Poly::<eyelid_match_ops::TinyTest>::from_coefficients_vec(vec![2, 0, 1, 2, 1]);
    let r = ctx.ternary_from_uniform(draw);
    assert_eq!(r.m.coeffs, vec![t - 1, 0, 1, t - 1, 1]);
    let zero = ctx.ternary_from_uniform(Poly::zero());
    assert!(zero.m.coeffs.is_empty());
}
