//! Encrypted iris matching tests.

use eyelid_match_ops::encoded::{PolyCode, PolyQuery};
use eyelid_match_ops::encrypted::{EncryptedPolyCode, EncryptedPolyQuery};
use eyelid_match_ops::iris::{data_bit_len_exec, IrisCode, IrisConf, IrisMask};
use eyelid_match_ops::plaintext::rotate;
use eyelid_match_ops::primitives::poly::conf::PolyConf;
use eyelid_match_ops::primitives::poly::Poly;
use eyelid_match_ops::primitives::yashe::{PrivateKey, PublicKey, Yashe};
use eyelid_match_ops::{FullBits, FullRes};
use rand::Rng;
use rand_distr::{Distribution, Normal};

type Case = (String, IrisCode, IrisMask, IrisCode, IrisMask);

/// The standard deviation for key generation sampling.
const KEY_DELTA: f64 = 3.2;
/// The standard deviation for encryption error sampling.
const ERROR_DELTA: f64 = 1.0;

fn sample_gaussian(delta: f64, rng: &mut rand::rngs::ThreadRng) -> Poly<FullRes> {
    let q = FullRes::modulus() as i128;
    let normal = Normal::new(0.0, delta).expect("constant parameters are valid");
    let coeffs: Vec<u128> = (0..FullRes::max_poly_degree())
        .map(|_| {
            let v: f64 = normal.sample(rng);
            (v.round() as i64 as i128).rem_euclid(q) as u128
        })
        .collect();
    Poly::from_coefficients_vec(coeffs)
}

fn keygen(ctx: &Yashe<FullRes>, rng: &mut rand::rngs::ThreadRng) -> (PrivateKey<FullRes>, PublicKey<FullRes>) {
    let private_key = loop {
        let f = sample_gaussian(KEY_DELTA, rng);
        if let Some(k) = ctx.private_key_from_sample(f) {
            break k;
        }
    };
    let g = sample_gaussian(KEY_DELTA, rng);
    let public_key = ctx.public_key_from_sample(g, &private_key);
    (private_key, public_key)
}

fn errors(n: usize, rng: &mut rand::rngs::ThreadRng) -> Vec<(Poly<FullRes>, Poly<FullRes>)> {
    (0..n).map(|_| (sample_gaussian(ERROR_DELTA, rng), sample_gaussian(ERROR_DELTA, rng))).collect()
}

fn set_iris_code<C: IrisConf>() -> IrisCode {
    IrisCode { bits: vec![true; data_bit_len_exec::<C>()] }
}

fn unset_iris_code<C: IrisConf>() -> IrisCode {
    IrisCode { bits: vec![false; data_bit_len_exec::<C>()] }
}

fn visible_iris_mask<C: IrisConf>() -> IrisMask {
    set_iris_code::<C>()
}

fn random_iris_code<C: IrisConf>() -> IrisCode {
    let mut rng = rand::thread_rng();
    IrisCode { bits: (0..data_bit_len_exec::<C>()).map(|_| rng.gen()).collect() }
}

fn occluded_iris_mask<C: IrisConf>() -> IrisMask {
    unset_iris_code::<C>()
}

fn random_iris_mask<C: IrisConf>() -> IrisMask {
    random_iris_code::<C>()
}

/// Flips a third of the bits.
fn similar_iris_code(base: &IrisCode) -> IrisCode {
    let mut similar = base.clone();
    for i in 0..base.bits.len() / 3 {
        similar.bits[i * 3] ^= true;
    }
    similar
}

fn codes<C: IrisConf>() -> Vec<(&'static str, IrisCode)> {
    vec![
        ("set", set_iris_code::<C>()),
        ("unset", unset_iris_code::<C>()),
        ("random", random_iris_code::<C>()),
    ]
}

fn masks<C: IrisConf>() -> Vec<(&'static str, IrisMask)> {
    vec![
        ("visible", visible_iris_mask::<C>()),
        ("occluded", occluded_iris_mask::<C>()),
        ("random", random_iris_mask::<C>()),
    ]
}

fn occluded<C: IrisConf>() -> Vec<(String, IrisMask, IrisMask)> {
    let mut occluded = Vec::new();
    for (description, mask) in masks::<C>() {
        occluded.push((format!("occluded, {description}"), occluded_iris_mask::<C>(), mask.clone()));
        occluded.push((format!("{description}, occluded"), mask, occluded_iris_mask::<C>()));
    }
    occluded
}

/// Test cases which always match, with visible bits.
fn matching<C: IrisConf>() -> Vec<Case> {
    let same_rand = random_iris_code::<C>();
    let iris2 = similar_iris_code(&same_rand);
    let iris3 = rotate::<C>(same_rand.clone(), C::rotation_limit() as isize);
    vec![
        ("set, visible".to_string(), set_iris_code::<C>(), visible_iris_mask::<C>(), set_iris_code::<C>(), visible_iris_mask::<C>()),
        (
            "unset, visible".to_string(),
            unset_iris_code::<C>(),
            visible_iris_mask::<C>(),
            unset_iris_code::<C>(),
            visible_iris_mask::<C>(),
        ),
        ("same rand, visible".to_string(), same_rand.clone(), visible_iris_mask::<C>(), same_rand.clone(), visible_iris_mask::<C>()),
        ("similar".to_string(), same_rand.clone(), visible_iris_mask::<C>(), iris2, visible_iris_mask::<C>()),
        ("not too much rotated".to_string(), same_rand, visible_iris_mask::<C>(), iris3, visible_iris_mask::<C>()),
    ]
}

/// Test cases which match only because the numbers of matching and visible bits are both zero:
/// every occluded mask pair with every pair of codes.
fn matching_occluded<C: IrisConf>() -> Vec<Case> {
    let mut matching = Vec::new();
    for (mask_description, mask_a, mask_b) in occluded::<C>() {
        for (eye_a_description, eye_a) in codes::<C>() {
            for (eye_b_description, eye_b) in codes::<C>() {
                matching.push((
                    format!("{eye_a_description}, {eye_b_description}, {mask_description}"),
                    eye_a.clone(),
                    mask_a.clone(),
                    eye_b,
                    mask_b.clone(),
                ));
            }
        }
    }
    matching
}

fn inverted(base: &IrisCode) -> IrisCode {
    IrisCode { bits: base.bits.iter().map(|b| !b).collect() }
}

fn different<C: IrisConf>() -> Vec<Case> {
    let same_rand = random_iris_code::<C>();
    let iris2 = random_iris_code::<C>();
    let iris3 = rotate::<C>(iris2.clone(), C::rotation_limit() as isize + 1);
    vec![
        ("set/unset, visible".to_string(), set_iris_code::<C>(), visible_iris_mask::<C>(), unset_iris_code::<C>(), visible_iris_mask::<C>()),
        ("inverted rand, visible".to_string(), same_rand.clone(), visible_iris_mask::<C>(), inverted(&same_rand), visible_iris_mask::<C>()),
        ("different".to_string(), same_rand, visible_iris_mask::<C>(), iris2.clone(), visible_iris_mask::<C>()),
        ("too much rotated".to_string(), iris2, visible_iris_mask::<C>(), iris3, visible_iris_mask::<C>()),
    ]
}

/// Encrypts both encodings and matches them homomorphically.
fn encrypted_match(
    ctx: &Yashe<FullRes>,
    private_key: &PrivateKey<FullRes>,
    public_key: &PublicKey<FullRes>,
    case: &Case,
    rng: &mut rand::rngs::ThreadRng,
) -> bool {
    let (_, eye_a, mask_a, eye_b, mask_b) = case;
    let poly_query: PolyQuery<FullBits> = PolyQuery::from_plaintext(eye_a, mask_a);
    let poly_code: PolyCode<FullBits> = PolyCode::from_plaintext(eye_b, mask_b);
    let query_errors = errors(poly_query.polys.len(), rng);
    let query_mask_errors = errors(poly_query.masks.len(), rng);
    let code_errors = errors(poly_code.polys.len(), rng);
    let code_mask_errors = errors(poly_code.masks.len(), rng);
    let encrypted_poly_query =
        EncryptedPolyQuery::convert_and_encrypt_query(ctx, poly_query, public_key, &query_errors, &query_mask_errors);
    let encrypted_poly_code =
        EncryptedPolyCode::convert_and_encrypt_code(ctx, poly_code, public_key, &code_errors, &code_mask_errors);
    encrypted_poly_query.is_match(ctx, private_key, &encrypted_poly_code).expect("encrypted matching must work")
}

#[test]
fn test_different_homomorphic_codes() {
    let mut rng = rand::thread_rng();
    let ctx: Yashe<FullRes> = Yashe::new();
    let (private_key, public_key) = keygen(&ctx, &mut rng);
    for case in different::<FullBits>().iter() {
        assert!(!encrypted_match(&ctx, &private_key, &public_key, case, &mut rng), "{} must not match", case.0);
    }
}

fn assert_all_match(cases: &[Case]) {
    let mut rng = rand::thread_rng();
    let ctx: Yashe<FullRes> = Yashe::new();
    let (private_key, public_key) = keygen(&ctx, &mut rng);
    for case in cases.iter() {
        assert!(encrypted_match(&ctx, &private_key, &public_key, case, &mut rng), "{} must match", case.0);
    }
}

#[test]
fn test_matching_homomorphic_codes() {
    assert_all_match(&matching::<FullBits>());
}

/// The occluded matching cases, six at a time: each encrypted match takes about two seconds.
fn assert_occluded_chunk_matches(chunk: usize) {
    let cases = matching_occluded::<FullBits>();
    assert_eq!(cases.len(), 54);
    assert_all_match(&cases[chunk * 6..chunk * 6 + 6]);
}

#[test]
fn test_matching_homomorphic_codes_occluded_0() {
    assert_occluded_chunk_matches(0);
}

#[test]
fn test_matching_homomorphic_codes_occluded_1() {
    assert_occluded_chunk_matches(1);
}

#[test]
fn test_matching_homomorphic_codes_occluded_2() {
    assert_occluded_chunk_matches(2);
}

#[test]
fn test_matching_homomorphic_codes_occluded_3() {
    assert_occluded_chunk_matches(3);
}

#[test]
fn test_matching_homomorphic_codes_occluded_4() {
    assert_occluded_chunk_matches(4);
}

#[test]
fn test_matching_homomorphic_codes_occluded_5() {
    assert_occluded_chunk_matches(5);
}

#[test]
fn test_matching_homomorphic_codes_occluded_6() {
    assert_occluded_chunk_matches(6);
}

#[test]
fn test_matching_homomorphic_codes_occluded_7() {
    assert_occluded_chunk_matches(7);
}

#[test]
fn test_matching_homomorphic_codes_occluded_8() {
    assert_occluded_chunk_matches(8);
}
