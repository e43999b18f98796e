use eyelid_match_ops::primitives::poly::mul::{naive_cyclotomic_mul, rec_karatsuba_mul};
use eyelid_match_ops::primitives::poly::Poly;
use eyelid_match_ops::FullRes;
use rand::Rng;

fn rand_poly(len: usize) -> Poly<FullRes> {
    let mut rng = rand::thread_rng();
    let q: u128 = 495925933090739208380417;
    let coeffs: Vec<u128> = (0..len).map(|_| rng.gen_range(0..q)).collect();
    Poly::from_coefficients_vec(coeffs)
}

#[test]
fn karatsuba_matches_naive_full_res() {
    let a = rand_poly(2048);
    let b = rand_poly(2048);
    let t = std::time::Instant::now();
    let r = rec_karatsuba_mul(&a, &b);
    let k = t.elapsed();
    let t = std::time::Instant::now();
    let s = naive_cyclotomic_mul(&a, &b);
    let nv = t.elapsed();
    println!("karatsuba {:?} naive {:?}", k, nv);
    assert_eq!(r.coeffs, s.coeffs);
    
}

