//! The prime fields used for polynomial coefficients.
use vstd::prelude::*;

pub mod fq123;
pub mod fq123bn;
pub mod fq66;
pub mod fq66bn;
pub mod fq79;
pub mod fq79bn;
pub mod fq_tiny;
pub mod fq_tiny_bn;

verus! {

/// A prime field `Z_q`, given by its modulus.
pub trait FieldConf {
    /// The prime modulus `q`.
    spec fn spec_modulus() -> nat;
}

} // verus!
