//! Middle-resolution parameters in 2^66.
use vstd::prelude::*;

use crate::primitives::poly::fq::FieldConf;

verus! {

/// The configuration of a prime field used for polynomial coefficients.
#[derive(Copy, Clone, Debug, Eq, PartialEq)]
pub struct Fq66Config;

impl FieldConf for Fq66Config {
    open spec fn spec_modulus() -> nat {
        21462786190088845153nat
    }
}

} // verus!
