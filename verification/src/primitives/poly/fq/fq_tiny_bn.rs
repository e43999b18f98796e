//! "BigNum" tiny test-only parameters.
use vstd::prelude::*;

use crate::primitives::poly::fq::FieldConf;

verus! {

/// The configuration of a prime field used for polynomial coefficients.
#[derive(Copy, Clone, Debug, Eq, PartialEq)]
pub struct Fq4Config;

impl FieldConf for Fq4Config {
    open spec fn spec_modulus() -> nat {
        5399nat
    }
}

} // verus!
