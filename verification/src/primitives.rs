//! Building blocks: modular coefficient arithmetic, cyclotomic polynomials, and the YASHE scheme.
use vstd::prelude::*;

pub mod field;
pub mod hamming;
pub mod montgomery;
pub mod poly;
pub mod sum;
pub mod wide;
pub mod yashe;

verus! {

} // verus!
