//! "BigNum" parameters for lifting middle-resolution coefficients during ciphertext multiplication.
use vstd::prelude::*;

use crate::primitives::poly::fq::FieldConf;

verus! {

/// The configuration of a prime field used for polynomial coefficients.
#[derive(Copy, Clone, Debug, Eq, PartialEq)]
pub struct Fq66bnConfig;

impl FieldConf for Fq66bnConfig {
    open spec fn spec_modulus() -> nat {
        8810663000980779494481237054627323289751079nat
    }
}

} // verus!
