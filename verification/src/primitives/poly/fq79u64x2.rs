//! An alternative prime below 2^79 for full-resolution coefficients.
use vstd::prelude::*;

use crate::primitives::poly::fq::FieldConf;

verus! {

/// The configuration of a prime field used for polynomial coefficients.
#[derive(Copy, Clone, Debug, Eq, PartialEq)]
pub struct Fq79Config;

impl FieldConf for Fq79Config {
    open spec fn spec_modulus() -> nat {
        93309596432438992665667nat
    }
}

} // verus!
