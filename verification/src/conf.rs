//! Configuration marker types.
//! Any or all of the configuration traits can be implemented on these types, or your own custom
//! types.
use vstd::prelude::*;

verus! {

/// Raw full resolution iris code dimensions.
///
/// This uses the full number of iris bits, which gives an upper bound on benchmarks.
#[derive(Copy, Clone, Debug, Eq, PartialEq)]
pub struct FullBits;

/// Raw middle resolution iris code dimensions.
#[derive(Copy, Clone, Debug, Eq, PartialEq)]
pub struct MiddleBits;

/// Tiny test dimensions, used for finding edge cases in tests.
/// Used for both a tiny resolution and a tiny block encoding.
///
/// The test parameters are specifically chosen to make failing tests easy to read and diagnose.
#[derive(Copy, Clone, Debug, Eq, PartialEq)]
pub struct TinyTest;

} // verus!
