//! Iris code matching operations library.
//!
//! Masking is applied to both iris codes before matching, then one of them is rotated. A
//! successful match has enough matching unmasked bits to reach the match threshold, in at least
//! one rotation.
//!
//! The library has three layers: `plaintext` works on raw bit vectors, `encoded` does the same
//! matching on polynomial-encoded bit vectors, and `encrypted` does it on YASHE-encrypted
//! polynomial encodings. Configurations are in `conf` and `iris`, and building blocks are in
//! `primitives`.
use vstd::prelude::*;

pub mod conf;
pub mod encoded;
pub mod encrypted;
pub mod iris;
pub mod plaintext;
pub mod primitives;

pub use conf::{FullBits, MiddleBits, TinyTest};
pub use encoded::{FullRes, LargeRes, MiddleRes};

verus! {

} // verus!
