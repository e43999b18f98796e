//! Tiny test-only parameters in 2^8.
use vstd::prelude::*;

use crate::primitives::poly::fq::FieldConf;

verus! {

/// The configuration of a prime field used for polynomial coefficients.
#[derive(Copy, Clone, Debug, Eq, PartialEq)]
pub struct Fq8Config;

impl FieldConf for Fq8Config {
    open spec fn spec_modulus() -> nat {
        239nat
    }
}

} // verus!
