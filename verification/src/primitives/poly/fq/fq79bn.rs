//! "BigNum" parameters for lifting full-resolution coefficients during ciphertext multiplication.
use vstd::prelude::*;

use crate::primitives::poly::fq::FieldConf;

verus! {

/// The configuration of a prime field used for polynomial coefficients.
#[derive(Copy, Clone, Debug, Eq, PartialEq)]
pub struct Fq79bnConfig;

impl FieldConf for Fq79bnConfig {
    open spec fn spec_modulus() -> nat {
        292599365471450699889605790713940231423010469055097nat
    }
}

} // verus!
