//! Fixed parameters for modular polynomial types.
use crate::primitives::field::{is_prime, modulus_ok};
use vstd::prelude::*;

verus! {

/// `n` is a power of two.
pub open spec fn is_pow2(n: nat) -> bool
    decreases n,
{
    if n <= 1 {
        n == 1
    } else {
        n % 2 == 0 && is_pow2(n / 2)
    }
}

/// The parameters a polynomial configuration must have: a power-of-two degree between `2^3` and
/// `2^20`, and a supported coefficient modulus.
pub open spec fn poly_conf_valid(n: nat, q: int) -> bool {
    &&& is_pow2(n)
    &&& 8 <= n <= 0x10_0000
    &&& modulus_ok(q)
}

/// Fixed polynomial parameters: the ring `Z_q[X] / (X^N + 1)`.
///
/// Polynomials with different parameters are incompatible.
pub trait PolyConf: Sized {
    /// The maximum exponent `N` in the polynomial modulus `X^N + 1`.
    spec fn spec_max_poly_degree() -> nat;

    /// The coefficient modulus `q`.
    spec fn spec_modulus() -> int;

    /// Returns `N`.
    fn max_poly_degree() -> (r: usize)
        ensures
            r == Self::spec_max_poly_degree(),
    ;

    /// Returns `q`.
    fn modulus() -> (r: u128)
        ensures
            r == Self::spec_modulus(),
    ;

    /// The parameters are valid.
    proof fn lemma_conf_valid()
        ensures
            poly_conf_valid(Self::spec_max_poly_degree(), Self::spec_modulus()),
    ;

    /// The coefficient modulus is prime.
    proof fn lemma_modulus_prime()
        ensures
            is_prime(Self::spec_modulus()),
    ;
}

} // verus!

verus! {

use crate::conf::TinyTest;
use crate::encoded::conf::{FullRes, MiddleRes};
use crate::primitives::poly::fq::fq66::Fq66Config;
use crate::primitives::poly::fq::fq79::Fq79Config;
use crate::primitives::poly::fq::fq_tiny::Fq4Config;
use crate::primitives::field::certificates::{
    lemma_prime_21462786190088845153, lemma_prime_7, lemma_prime_495925933090739208380417,
};
use crate::primitives::poly::fq::FieldConf;

/// Full resolution iris bit length polynomial parameters for lifted coefficients.
#[derive(Copy, Clone, Debug, Eq, PartialEq)]
pub struct IrisBitsBN;

/// Full resolution polynomial parameters for lifted coefficients.
///
/// These are the parameters for full resolution, according to the Inversed Tech report.
#[derive(Copy, Clone, Debug, Eq, PartialEq)]
pub struct FullResBN;

/// Middle resolution polynomial parameters for lifted coefficients.
///
/// These are the parameters for middle resolution, according to the Inversed Tech report.
#[derive(Copy, Clone, Debug, Eq, PartialEq)]
pub struct MiddleResBN;

/// Tiny test polynomials for lifted coefficients, used for finding edge cases in tests.
#[derive(Copy, Clone, Debug, Eq, PartialEq)]
pub struct TinyTestBN;

/// The coefficient modulus of full resolution polynomials, a prime between `2^78` and `2^79`
/// with `2^13` dividing `q - 1`.
pub const FQ79_MODULUS: u128 = 495925933090739208380417u128;

/// The coefficient modulus of middle resolution polynomials, a prime below `2^66`.
pub const FQ66_MODULUS: u128 = 21462786190088845153u128;

/// The coefficient modulus of tiny test polynomials.
pub const FQ_TINY_MODULUS: u128 = 7u128;

impl PolyConf for FullRes {
    open spec fn spec_max_poly_degree() -> nat {
        2048
    }

    open spec fn spec_modulus() -> int {
        Fq79Config::spec_modulus() as int
    }

    fn max_poly_degree() -> (r: usize) {
        2048
    }

    fn modulus() -> (r: u128) {
        FQ79_MODULUS
    }

    proof fn lemma_conf_valid() {
        reveal_with_fuel(is_pow2, 12);
    }

    proof fn lemma_modulus_prime() {
        lemma_prime_495925933090739208380417();
    }
}

impl PolyConf for MiddleRes {
    open spec fn spec_max_poly_degree() -> nat {
        1024
    }

    open spec fn spec_modulus() -> int {
        Fq66Config::spec_modulus() as int
    }

    fn max_poly_degree() -> (r: usize) {
        1024
    }

    fn modulus() -> (r: u128) {
        FQ66_MODULUS
    }

    proof fn lemma_conf_valid() {
        reveal_with_fuel(is_pow2, 11);
    }

    proof fn lemma_modulus_prime() {
        lemma_prime_21462786190088845153();
    }
}

impl PolyConf for TinyTest {
    open spec fn spec_max_poly_degree() -> nat {
        8
    }

    open spec fn spec_modulus() -> int {
        Fq4Config::spec_modulus() as int
    }

    fn max_poly_degree() -> (r: usize) {
        8
    }

    fn modulus() -> (r: u128) {
        FQ_TINY_MODULUS
    }

    proof fn lemma_conf_valid() {
        reveal_with_fuel(is_pow2, 4);
    }

    proof fn lemma_modulus_prime() {
        lemma_prime_7();
    }
}

} // verus!
