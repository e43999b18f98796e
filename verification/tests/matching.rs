//! Plaintext and encoded iris matching tests.

use eyelid_match_ops::encoded::{PolyCode, PolyQuery};
use eyelid_match_ops::iris::{data_bit_len_exec, IrisCode, IrisConf, IrisMask};
use eyelid_match_ops::plaintext::{is_iris_match, rotate};
use eyelid_match_ops::{FullBits, MiddleBits};
use rand::Rng;

type Case = (String, IrisCode, IrisMask, IrisCode, IrisMask);

fn set_iris_code<C: IrisConf>() -> IrisCode {
    IrisCode { bits: vec![true; data_bit_len_exec::<C>()] }
}

fn unset_iris_code<C: IrisConf>() -> IrisCode {
    IrisCode { bits: vec![false; data_bit_len_exec::<C>()] }
}

fn visible_iris_mask<C: IrisConf>() -> IrisMask {
    set_iris_code::<C>()
}

fn occluded_iris_mask<C: IrisConf>() -> IrisMask {
    unset_iris_code::<C>()
}

fn random_iris_code<C: IrisConf>() -> IrisCode {
    let mut rng = rand::thread_rng();
    IrisCode { bits: (0..data_bit_len_exec::<C>()).map(|_| rng.gen()).collect() }
}

fn random_iris_mask<C: IrisConf>() -> IrisMask {
    random_iris_code::<C>()
}

/// Flips a third of the bits.
fn similar_iris_code(base: &IrisCode) -> IrisCode {
    let mut similar = base.clone();
    for i in 0..base.bits.len() / 3 {
        similar.bits[i * 3] ^= true;
    }
    similar
}

fn inverted(base: &IrisCode) -> IrisCode {
    IrisCode { bits: base.bits.iter().map(|b| !b).collect() }
}

fn rotate_not_too_much<C: IrisConf>(base: &IrisCode) -> IrisCode {
    rotate::<C>(base.clone(), C::rotation_limit() as isize)
}

fn rotate_too_much<C: IrisConf>(base: &IrisCode) -> IrisCode {
    rotate::<C>(base.clone(), C::rotation_limit() as isize + 1)
}

fn codes<C: IrisConf>() -> Vec<(&'static str, IrisCode)> {
    vec![
        ("set", set_iris_code::<C>()),
        ("unset", unset_iris_code::<C>()),
        ("random", random_iris_code::<C>()),
    ]
}

fn masks<C: IrisConf>() -> Vec<(&'static str, IrisMask)> {
    vec![
        ("visible", visible_iris_mask::<C>()),
        ("occluded", occluded_iris_mask::<C>()),
        ("random", random_iris_mask::<C>()),
    ]
}

fn occluded<C: IrisConf>() -> Vec<(String, IrisMask, IrisMask)> {
    let mut occluded = Vec::new();
    for (description, mask) in masks::<C>() {
        occluded.push((format!("occluded, {description}"), occluded_iris_mask::<C>(), mask.clone()));
        occluded.push((format!("{description}, occluded"), mask, occluded_iris_mask::<C>()));
    }
    occluded
}

/// Test cases which always match.
fn matching<C: IrisConf>() -> Vec<Case> {
    let same_rand = random_iris_code::<C>();
    let iris2 = similar_iris_code(&same_rand);
    let iris3 = rotate_not_too_much::<C>(&same_rand);
    let mut matching = vec![
        ("set, visible".to_string(), set_iris_code::<C>(), visible_iris_mask::<C>(), set_iris_code::<C>(), visible_iris_mask::<C>()),
        (
            "unset, visible".to_string(),
            unset_iris_code::<C>(),
            visible_iris_mask::<C>(),
            unset_iris_code::<C>(),
            visible_iris_mask::<C>(),
        ),
        ("same rand, visible".to_string(), same_rand.clone(), visible_iris_mask::<C>(), same_rand.clone(), visible_iris_mask::<C>()),
        ("similar".to_string(), same_rand.clone(), visible_iris_mask::<C>(), iris2, visible_iris_mask::<C>()),
        ("not too much rotated".to_string(), same_rand, visible_iris_mask::<C>(), iris3, visible_iris_mask::<C>()),
    ];
    // These cases technically match, but only because the numbers of matching and visible bits
    // are both zero.
    for (mask_description, mask_a, mask_b) in occluded::<C>() {
        for (eye_a_description, eye_a) in codes::<C>() {
            for (eye_b_description, eye_b) in codes::<C>() {
                matching.push((
                    format!("{eye_a_description}, {eye_b_description}, {mask_description}"),
                    eye_a.clone(),
                    mask_a.clone(),
                    eye_b,
                    mask_b.clone(),
                ));
            }
        }
    }
    matching
}

/// Test cases which never match.
fn different<C: IrisConf>() -> Vec<Case> {
    let same_rand = random_iris_code::<C>();
    let iris2 = random_iris_code::<C>();
    let iris3 = rotate_too_much::<C>(&iris2);
    vec![
        (
            "set/unset, visible".to_string(),
            set_iris_code::<C>(),
            visible_iris_mask::<C>(),
            unset_iris_code::<C>(),
            visible_iris_mask::<C>(),
        ),
        ("inverted rand, visible".to_string(), same_rand.clone(), visible_iris_mask::<C>(), inverted(&same_rand), visible_iris_mask::<C>()),
        ("different".to_string(), same_rand, visible_iris_mask::<C>(), iris2.clone(), visible_iris_mask::<C>()),
        ("too much rotated".to_string(), iris2, visible_iris_mask::<C>(), iris3, visible_iris_mask::<C>()),
    ]
}

/// Iris comparison results are the same regardless of the order of the iris codes.
fn assert_iris_compare<C: IrisConf>(expected: bool, description: &str, case: &Case) {
    let (_, eye_a, mask_a, eye_b, mask_b) = case;
    assert_eq!(expected, is_iris_match::<C>(eye_a, mask_a, eye_b, mask_b), "{description}: test case order");
    assert_eq!(expected, is_iris_match::<C>(eye_b, mask_b, eye_a, mask_a), "{description}: reverse order");
}

#[test]
fn matching_matching_codes() {
    for case in matching::<FullBits>().iter() {
        assert_iris_compare::<FullBits>(true, &case.0, case);
    }
    for case in matching::<MiddleBits>().iter() {
        assert_iris_compare::<MiddleBits>(true, &case.0, case);
    }
}

#[test]
fn matching_different_codes() {
    for case in different::<FullBits>().iter() {
        assert_iris_compare::<FullBits>(false, &case.0, case);
    }
    for case in different::<MiddleBits>().iter() {
        assert_iris_compare::<MiddleBits>(false, &case.0, case);
    }
}

#[test]
fn matching_codes() {
    for (description, eye_a, mask_a, eye_b, mask_b) in matching::<FullBits>().iter() {
        let poly_query: PolyQuery<FullBits> = PolyQuery::from_plaintext(eye_a, mask_a);
        let poly_code: PolyCode<FullBits> = PolyCode::from_plaintext(eye_b, mask_b);
        let res = poly_query.is_match(&poly_code).expect("matching must work");
        assert!(res, "{description} must match");
    }
    for (description, eye_a, mask_a, eye_b, mask_b) in matching::<MiddleBits>().iter() {
        let poly_query: PolyQuery<MiddleBits> = PolyQuery::from_plaintext(eye_a, mask_a);
        let poly_code: PolyCode<MiddleBits> = PolyCode::from_plaintext(eye_b, mask_b);
        let res = poly_query.is_match(&poly_code).expect("matching must work");
        assert!(res, "{description} must match");
    }
}

#[test]
fn different_codes() {
    for (description, eye_a, mask_a, eye_b, mask_b) in different::<FullBits>().iter() {
        let poly_query: PolyQuery<FullBits> = PolyQuery::from_plaintext(eye_a, mask_a);
        let poly_code: PolyCode<FullBits> = PolyCode::from_plaintext(eye_b, mask_b);
        let res = poly_query.is_match(&poly_code).expect("matching must work");
        assert!(!res, "{description} must not match");
    }
}
