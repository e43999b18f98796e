//! Tiny test-only parameters, chosen so that failing tests are easy to read.
use vstd::prelude::*;

use crate::primitives::poly::fq::FieldConf;

verus! {

/// The configuration of a prime field used for polynomial coefficients.
#[derive(Copy, Clone, Debug, Eq, PartialEq)]
pub struct Fq4Config;

impl FieldConf for Fq4Config {
    open spec fn spec_modulus() -> nat {
        7nat
    }
}

} // verus!
