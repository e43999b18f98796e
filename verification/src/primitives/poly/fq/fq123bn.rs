//! "BigNum" parameters for lifting 2^123 coefficients.
use vstd::prelude::*;

use crate::primitives::poly::fq::FieldConf;

verus! {

/// The configuration of a prime field used for polynomial coefficients.
#[derive(Copy, Clone, Debug, Eq, PartialEq)]
pub struct Fq123bnConfig;

impl FieldConf for Fq123bnConfig {
    open spec fn spec_modulus() -> nat {
        213557444820616770446469265530687396088842657026576979183513525061054745996489nat
    }
}

} // verus!
