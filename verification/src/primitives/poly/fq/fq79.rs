//! Full-resolution parameters in 2^79: a prime q between 2^78 and 2^79 with 2^13 dividing q - 1.
use vstd::prelude::*;

use crate::primitives::poly::fq::FieldConf;

verus! {

/// The configuration of a prime field used for polynomial coefficients.
#[derive(Copy, Clone, Debug, Eq, PartialEq)]
pub struct Fq79Config;

impl FieldConf for Fq79Config {
    open spec fn spec_modulus() -> nat {
        495925933090739208380417nat
    }
}

} // verus!
