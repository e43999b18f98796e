//! Parameters in 2^123: a prime q between 2^122 and 2^123 with 2^11 dividing q - 1.
use vstd::prelude::*;

use crate::primitives::poly::fq::FieldConf;

verus! {

/// The configuration of a prime field used for polynomial coefficients.
#[derive(Copy, Clone, Debug, Eq, PartialEq)]
pub struct Fq123Config;

impl FieldConf for Fq123Config {
    open spec fn spec_modulus() -> nat {
        5825476135918962761812038067936663553nat
    }
}

} // verus!
