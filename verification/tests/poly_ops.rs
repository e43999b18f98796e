//! Tests for polynomial multiplication, division, reduction and inverse.

use eyelid_match_ops::primitives::poly::conf::PolyConf;
use eyelid_match_ops::primitives::poly::inv::{extended_gcd, inverse, new_unreduced_poly_modulus_slow};
use eyelid_match_ops::primitives::poly::modulus::{mod_poly_ark_ref_slow, mod_poly_manual_ref};
use eyelid_match_ops::primitives::poly::mul::flat::{flat_karatsuba_mul, poly_split};
use eyelid_match_ops::primitives::poly::mul::{naive_cyclotomic_mul, poly_split_half, rec_karatsuba_mul};
use eyelid_match_ops::primitives::montgomery::mul_limbs_u64;
use eyelid_match_ops::primitives::poly::Poly;
use eyelid_match_ops::{FullRes, MiddleRes, TinyTest};
use rand::Rng;
use rand_distr::{Distribution, Normal};

type TestRes = FullRes;

/// A multiplication function under test.
type MulFn<C> = fn(&Poly<C>, &Poly<C>) -> Poly<C>;

fn mul_fns<C: PolyConf>() -> Vec<(&'static str, MulFn<C>)> {
    vec![
        ("naive_cyclotomic_mul", naive_cyclotomic_mul::<C> as MulFn<C>),
        ("rec_karatsuba_mul", rec_karatsuba_mul::<C> as MulFn<C>),
        ("flat_karatsuba_mul", flat_karatsuba_mul::<C> as MulFn<C>),
    ]
}

/// A polynomial with `degree + 1` random coefficients, reduced by the polynomial modulus.
fn rand_poly<C: PolyConf>(degree: usize) -> Poly<C> {
    let mut rng = rand::thread_rng();
    let q = C::modulus();
    let coeffs: Vec<u128> = (0..=degree).map(|_| rng.gen_range(0..q)).collect();
    Poly::from_coefficients_vec(coeffs)
}

/// The coefficient of `X^i`.
fn coeff<C: PolyConf>(p: &Poly<C>, i: usize) -> u128 {
    p.coeffs.get(i).copied().unwrap_or(0)
}

fn neg<C: PolyConf>(c: u128) -> u128 {
    (C::modulus() - c) % C::modulus()
}

fn sample_gaussian<C: PolyConf>(delta: f64) -> Poly<C> {
    let mut rng = rand::thread_rng();
    let q = C::modulus() as i128;
    let normal = Normal::new(0.0, delta).expect("constant parameters are valid");
    let coeffs: Vec<u128> = (0..C::max_poly_degree())
        .map(|_| {
            let v: f64 = normal.sample(&mut rng);
            (v.round() as i64 as i128).rem_euclid(q) as u128
        })
        .collect();
    Poly::from_coefficients_vec(coeffs)
}

/// Multiplying a random polynomial by `X^(N-1)` rotates it by `N - 1`, negating all but the
/// first coefficient.
fn check_cyclotomic_mul_rand_xnm1<C: PolyConf>(name: &str, mul_fn: MulFn<C>) {
    let n = C::max_poly_degree();
    let p1: Poly<C> = rand_poly(n - 1);
    assert!(p1.degree() <= n - 1);

    let xnm1 = Poly::<C>::xn(n - 1);
    assert_eq!(xnm1.degree(), n - 1);

    let res = mul_fn(&p1, &xnm1);
    assert!(res.degree() <= n);

    for i in 0..n - 1 {
        assert_eq!(coeff(&res, i), neg::<C>(coeff(&p1, i + 1)), "{name}: coefficient {i}");
    }
    assert_eq!(coeff(&res, n - 1), coeff(&p1, 0), "{name}");
    assert!(res.coeffs.len() <= n, "{name}");
}

#[test]
fn test_cyclotomic_mul_rand_xnm1() {
    for (name, mul_fn) in mul_fns::<TestRes>() {
        check_cyclotomic_mul_rand_xnm1::<TestRes>(name, mul_fn);
    }
}

/// Multiplications whose result is `X^N`, which reduces to the constant `q - 1`.
fn check_cyclotomic_mul_max_degree<C: PolyConf>(name: &str, mul_fn: MulFn<C>) {
    let n = C::max_poly_degree();
    let q = C::modulus();

    // X^N, un-reduced but without leading zeroes.
    let mut coeffs = vec![0u128; n];
    coeffs.push(1);
    let x_max: Poly<C> = Poly { coeffs, conf: std::marker::PhantomData };

    let (quo, x_max) = x_max
        .divide_with_q_and_r(&new_unreduced_poly_modulus_slow::<C>())
        .expect("is divisible by X^N + 1");
    assert_eq!(quo.coeffs, vec![1u128]);
    assert_eq!(x_max.coeffs, vec![q - 1]);

    for i in 0..=n {
        // Skip most values.
        if i % 101 != 0 && ![0, 1, n / 2 - 1, n / 2, n / 2 + 1, n - 1, n].contains(&i) {
            continue;
        }

        let p1 = Poly::<C>::xn(i);
        let p2 = Poly::<C>::xn(n - i);

        if i == 0 || i == n {
            assert_eq!(p1.degree(), 0);
            assert_eq!(p2.degree(), 0);
        } else {
            assert_eq!(p1.degree() + p2.degree(), n);
        }

        let res = mul_fn(&p1, &p2);
        assert_eq!(res.coeffs, x_max.coeffs, "{name}: x^{i} * x^{}", n - i);
    }
}

#[test]
fn mul_test_cyclotomic_mul_max_degree() {
    for (name, mul_fn) in mul_fns::<TestRes>() {
        check_cyclotomic_mul_max_degree::<TestRes>(name, mul_fn);
    }
}

#[test]
fn test_karatsuba_mul_rand_consistent() {
    let n = TestRes::max_poly_degree();
    let p1: Poly<TestRes> = rand_poly(n - 1);
    let p2: Poly<TestRes> = rand_poly(n - 1);
    assert!(p1.degree() <= n - 1);
    assert!(p2.degree() <= n - 1);

    let expected = naive_cyclotomic_mul(&p1, &p2);
    assert!(expected.degree() <= n);

    let rec_res = rec_karatsuba_mul(&p1, &p2);
    assert!(rec_res.degree() <= n);

    let flat_res = flat_karatsuba_mul(&p1, &p2);
    assert!(flat_res.degree() <= n);

    assert_eq!(expected.coeffs, rec_res.coeffs);
    assert_eq!(expected.coeffs, flat_res.coeffs);
}

#[test]
fn karatsuba_mul_middle_res_consistent() {
    let n = MiddleRes::max_poly_degree();
    let p1: Poly<MiddleRes> = rand_poly(n - 1);
    let p2: Poly<MiddleRes> = rand_poly(n / 3);
    let expected = naive_cyclotomic_mul(&p1, &p2);
    assert_eq!(expected.coeffs, rec_karatsuba_mul(&p1, &p2).coeffs);
    assert_eq!(expected.coeffs, flat_karatsuba_mul(&p1, &p2).coeffs);
}

#[test]
fn small_product_exact_values() {
    // (1 + 2X)(3 + X^2) = 3 + 6X + X^2 + 2X^3
    let a: Poly<MiddleRes> = Poly::from_coefficients_vec(vec![1, 2]);
    let b: Poly<MiddleRes> = Poly::from_coefficients_vec(vec![3, 0, 1]);
    for (name, mul_fn) in mul_fns::<MiddleRes>() {
        assert_eq!(mul_fn(&a, &b).coeffs, vec![3, 6, 1, 2], "{name}");
    }
    // X^(N-1) * X = X^N = -1
    let n = MiddleRes::max_poly_degree();
    let x = Poly::<MiddleRes>::xn(1);
    let top = Poly::<MiddleRes>::xn(n - 1);
    for (name, mul_fn) in mul_fns::<MiddleRes>() {
        assert_eq!(mul_fn(&x, &top).coeffs, vec![MiddleRes::modulus() - 1], "{name}");
    }
}

#[test]
fn poly_split_blocks() {
    let n = MiddleRes::max_poly_degree();
    let coeffs: Vec<u128> = (1..=10).collect();
    let a: Poly<MiddleRes> = Poly::from_coefficients_vec(coeffs);
    let parts = poly_split(&a, 4);
    assert_eq!(parts.len(), n / 4);
    assert_eq!(parts[0].coeffs, vec![1, 2, 3, 4]);
    assert_eq!(parts[1].coeffs, vec![5, 6, 7, 8]);
    assert_eq!(parts[2].coeffs, vec![9, 10]);
    assert!(parts[3..].iter().all(|p| p.coeffs.is_empty()));

    let (low, high) = poly_split_half(&a, 8);
    assert_eq!(low.coeffs, vec![1, 2, 3, 4]);
    assert_eq!(high.coeffs, vec![5, 6, 7, 8, 9, 10]);
}

#[test]
fn modulus_reductions_agree() {
    let n = MiddleRes::max_poly_degree();
    let q = MiddleRes::modulus();
    // 5 + 7 X^N + 2 X^(N + 1) + X^(2N) = 5 - 7 + 1 - 2 X = -1 - 2X
    let mut coeffs = vec![0u128; 2 * n + 1];
    coeffs[0] = 5;
    coeffs[n] = 7;
    coeffs[n + 1] = 2;
    coeffs[2 * n] = 1;
    let p: Poly<MiddleRes> = Poly { coeffs, conf: std::marker::PhantomData };
    let expected = vec![q - 1, q - 2];
    assert_eq!(mod_poly_manual_ref(&p).coeffs, expected);
    assert_eq!(mod_poly_ark_ref_slow(&p).coeffs, expected);
}

#[test]
fn division_by_zero_is_refused() {
    let a: Poly<MiddleRes> = Poly::from_coefficients_vec(vec![1, 2, 3]);
    assert!(a.divide_with_q_and_r(&Poly::zero()).is_none());
    let (quo, rem) = Poly::<MiddleRes>::zero().divide_with_q_and_r(&a).expect("zero divides");
    assert!(quo.coeffs.is_empty() && rem.coeffs.is_empty());
}

#[test]
fn division_exact_values() {
    // (X^2 + 3X + 5) = (X + 1)(X + 2) + 3
    let num: Poly<MiddleRes> = Poly::from_coefficients_vec(vec![5, 3, 1]);
    let den: Poly<MiddleRes> = Poly::from_coefficients_vec(vec![1, 1]);
    let (quo, rem) = num.divide_with_q_and_r(&den).expect("divisor is monic");
    assert_eq!(quo.coeffs, vec![2, 1]);
    assert_eq!(rem.coeffs, vec![3]);
}

fn inverse_test_helper<C: PolyConf>(f: &Poly<C>) {
    let out = inverse(f);
    match out {
        Ok(inv) => assert_eq!(f.mul(&inv).coeffs, Poly::<C>::one().coeffs),
        Err(_) => {
            // Check that `f` isn't invertible.
            let (_x, y, _d) = extended_gcd(&Poly::new_unreduced_poly_modulus_slow(), f);
            let fy = f.mul(&y);
            assert_ne!(fy.coeffs, Poly::<C>::one().coeffs);
            if !fy.coeffs.is_empty() {
                assert_ne!(fy.degree(), 0);
            }
            panic!("unexpected non-invertible large polynomial");
        }
    }
}

#[test]
fn test_key_generation_and_inverse() {
    let f = sample_gaussian::<TestRes>(3.2);
    inverse_test_helper(&f);
}

#[test]
fn test_inverse_with_random_coefficients() {
    let f: Poly<TestRes> = rand_poly(TestRes::max_poly_degree());
    inverse_test_helper(&f);
}

#[test]
fn test_edge_cases() {
    // Inverse of one is one
    let one_poly: Poly<TestRes> = Poly::one();
    let out = inverse(&one_poly.clone());
    assert_eq!(out.map(|p| p.coeffs), Ok(one_poly.coeffs.clone()));

    // Inverse of minus one is minus one
    let zero_poly: Poly<TestRes> = Poly::zero();
    let minus_one_poly = zero_poly.sub(&one_poly);
    let out = inverse(&minus_one_poly.clone());
    assert_eq!(out.map(|p| p.coeffs), Ok(minus_one_poly.coeffs));

    // Inverse of zero is error
    let zero_poly: Poly<TestRes> = Poly::zero();
    let out = inverse(&zero_poly.clone());
    assert!(out.is_err());
}

#[test]
fn extended_gcd_of_coprime_constants() {
    // gcd(X^N + 1, 2) is a unit: 2 y = d for a constant d
    let two: Poly<MiddleRes> = Poly::from_coefficients_vec(vec![2]);
    let (_x, y, d) = extended_gcd(&Poly::new_unreduced_poly_modulus_slow(), &two);
    assert_eq!(d.degree(), 0);
    assert_eq!(two.mul(&y).coeffs, d.coeffs);
}

#[test]
fn ring_multiplication_commutes_and_associates() {
    let n = MiddleRes::max_poly_degree();
    let a: Poly<MiddleRes> = rand_poly(n - 1);
    let b: Poly<MiddleRes> = rand_poly(n - 1);
    let c: Poly<MiddleRes> = rand_poly(n / 2);
    assert_eq!(rec_karatsuba_mul(&a, &b).coeffs, rec_karatsuba_mul(&b, &a).coeffs);
    let ab_c = rec_karatsuba_mul(&rec_karatsuba_mul(&a, &b), &c);
    let a_bc = rec_karatsuba_mul(&a, &rec_karatsuba_mul(&b, &c));
    assert_eq!(ab_c.coeffs, a_bc.coeffs);
}

#[test]
fn coefficient_maps() {
    let q = MiddleRes::modulus();
    let mut p: Poly<MiddleRes> = Poly::from_coefficients_vec(vec![3, 0, 5, q - 1]);
    // doubling, and sending q - 1 to zero
    p.coeffs_modify_non_zero(|c: u128| if c == q - 1 { 0 } else { (2 * c) % q });
    assert_eq!(p.coeffs, vec![6, 0, 10]);

    let mut z: Poly<MiddleRes> = Poly::from_coefficients_vec(vec![1]);
    z.coeffs_modify_include_zero(|c: u128| (c + 1) % q);
    assert_eq!(z.coeffs.len(), MiddleRes::max_poly_degree());
    assert_eq!(z.coeffs[0], 2);
    assert!(z.coeffs[1..].iter().all(|c| *c == 1));

    // to a small modulus: 10 and 7 become 3 and 0
    let small: Poly<TinyTest> = Poly::from_coefficients_vec(vec![10 % 7, 0, 7 % 7]);
    let a: Poly<MiddleRes> = Poly::from_coefficients_vec(vec![10, 0, 7]);
    let m: Poly<TinyTest> = a.map_non_zero(|c: u128| c % 7);
    assert_eq!(m.coeffs, small.coeffs);

    let mut b: Poly<MiddleRes> = Poly::from_coefficients_vec(vec![10]);
    let all: Poly<TinyTest> = b.map_include_zero(|c: u128| (c + 1) % 7);
    // 11 % 7 = 4, then N - 1 ones: folded by X^8 = -1, the ones cancel but for one -1 at X^0
    assert_eq!(all.coeffs, vec![3]);
    let extracted: Vec<bool> = b.extract_include_zero(|c: u128| c != 0);
    assert_eq!(extracted.len(), MiddleRes::max_poly_degree());
    assert!(extracted[0] && extracted[1..].iter().all(|x| !x));

    let mut c: Poly<MiddleRes> = Poly::from_coefficients_vec(vec![1, 2]);
    c.coeffs_mut()[1] = 0;
    c.truncate_to_canonical_form();
    assert_eq!(c.coeffs, vec![1]);
}

#[test]
fn coefficient_index_and_division_by_xn() {
    let mut p = Poly::<TinyTest>::from_coefficients_vec(vec![1, 2, 3]);
    assert_eq!(p.index(1), 2);
    assert_eq!(p.index(5), 0);
    *p.index_mut(5) = 4;
    assert_eq!(p.coeffs, vec![1, 2, 3, 0, 0, 4]);
    p.reduce_mod_poly();
    let p = Poly::<TinyTest>::from_coefficients_vec(vec![1, 2, 3]);
    let (quo, rem) = p.new_div_xn(10);
    assert!(quo.coeffs.is_empty());
    assert_eq!(rem.coeffs, vec![1, 2, 3]);
    let (quo, rem) = p.div_xn(1);
    assert_eq!(quo.coeffs, vec![2, 3]);
    assert_eq!(rem.coeffs, vec![1]);
}

#[test]
fn montgomery_limb_multiplication() {
    // 2^128 mod q is the Montgomery form of 1
    let one = [16751003148178312477u64, 884u64];
    let b = [11177671081359486962u64, 6692u64];
    assert_eq!(mul_limbs_u64(one, b), b);
    let a = [15643392356038589236u64, 53540u64];
    assert_eq!(mul_limbs_u64(a, b), [10576507342446920759u64, 14779u64]);
    assert_eq!(mul_limbs_u64([0, 0], b), [0, 0]);
}

#[test]
fn canonical_form_check() {
    let q = TinyTest::modulus();
    let p = Poly::<TinyTest>::from_coefficients_vec(vec![1, 2, 3]);
    assert!(p.is_canonical_exec());
    assert!(Poly::<TinyTest>::zero().is_canonical_exec());
    let trailing_zero = Poly::<TinyTest> { coeffs: vec![1, 0], conf: core::marker::PhantomData };
    assert!(!trailing_zero.is_canonical_exec());
    let unreduced = Poly::<TinyTest> { coeffs: vec![q, 1], conf: core::marker::PhantomData };
    assert!(!unreduced.is_canonical_exec());
    let too_long = Poly::<TinyTest> { coeffs: vec![1; TinyTest::max_poly_degree() + 1], conf: core::marker::PhantomData };
    assert!(!too_long.is_canonical_exec());
}

#[test]
fn division_by_xn_round_trip() {
    let p = Poly::<TinyTest>::from_coefficients_vec(vec![5, 0, 6, 1, 4, 2]);
    for n in 0..10 {
        let (quo, rem) = p.clone().div_xn(n);
        let back = quo.new_mul_xn(n);
        let sum = back.add(&rem);
        assert_eq!(sum.coeffs, p.coeffs, "round trip at n = {n}");
    }
}
