//! Encoding scheme configurations.
use vstd::prelude::*;

use crate::conf::{FullBits, MiddleBits, TinyTest};
use crate::iris::IrisConf;
use crate::primitives::poly::conf::PolyConf;

verus! {

/// The dimensions of an encoding for an iris code, used for efficient matching.
pub trait EncodeConf: Sized {
    /// The configuration of iris code data.
    type EyeConf: IrisConf;

    /// The configuration of plaintext polynomials.
    type PlainConf: PolyConf;

    /// The number of rows in each block of an iris code: `s`.
    spec fn spec_rows_per_block() -> nat;

    /// Returns the number of rows in each block.
    fn rows_per_block() -> (r: usize)
        ensures
            r == Self::spec_rows_per_block(),
    ;

    /// The parameters are valid.
    proof fn lemma_encode_conf_valid()
        ensures
            encode_params_valid(
                Self::spec_rows_per_block(),
                Self::EyeConf::spec_column_len(),
                Self::EyeConf::spec_columns(),
                Self::EyeConf::spec_rotation_limit(),
                Self::PlainConf::spec_max_poly_degree(),
            ),
    ;
}

/// The number of blocks necessary to hold all rows of the code.
pub open spec fn num_blocks<C: EncodeConf>() -> nat {
    C::EyeConf::spec_column_len() / C::spec_rows_per_block()
}

/// The number of columns plus padding for rotations: `δ = k + v - u = k + 2v`.
pub open spec fn num_cols_and_pads<C: EncodeConf>() -> nat {
    C::EyeConf::spec_columns() + 2 * C::EyeConf::spec_rotation_limit()
}

/// The parameters an encoding must have: whole blocks of rows that each fit in one polynomial.
pub open spec fn encode_params_valid(rows: nat, column_len: nat, columns: nat, rotation_limit: nat, max_degree: nat) -> bool {
    &&& rows >= 1
    &&& (column_len / rows) * rows == column_len
    &&& (columns + 2 * rotation_limit) * rows <= max_degree
}

/// The parameters of `C` are valid.
pub open spec fn encode_conf_valid<C: EncodeConf>() -> bool {
    encode_params_valid(
        C::spec_rows_per_block(),
        C::EyeConf::spec_column_len(),
        C::EyeConf::spec_columns(),
        C::EyeConf::spec_rotation_limit(),
        C::PlainConf::spec_max_poly_degree(),
    )
}

impl EncodeConf for FullBits {
    type EyeConf = FullBits;

    type PlainConf = FullRes;

    open spec fn spec_rows_per_block() -> nat {
        8
    }

    fn rows_per_block() -> (r: usize) {
        8
    }

    proof fn lemma_encode_conf_valid() {
    }
}

impl EncodeConf for MiddleBits {
    type EyeConf = MiddleBits;

    type PlainConf = MiddleRes;

    open spec fn spec_rows_per_block() -> nat {
        4
    }

    fn rows_per_block() -> (r: usize) {
        4
    }

    proof fn lemma_encode_conf_valid() {
    }
}

impl EncodeConf for TinyTest {
    type EyeConf = TinyTest;

    type PlainConf = TinyTest;

    open spec fn spec_rows_per_block() -> nat {
        1
    }

    fn rows_per_block() -> (r: usize) {
        1
    }

    proof fn lemma_encode_conf_valid() {
    }
}

/// Large resolution polynomial parameters.
///
/// These are meant for a larger resolution than [`FullRes`]; no parameters are set for them yet.
#[derive(Copy, Clone, Debug, Eq, PartialEq)]
pub struct LargeRes;

/// Full resolution polynomial parameters.
///
/// These are the parameters for full resolution, according to the Inversed Tech report.
#[derive(Copy, Clone, Debug, Eq, PartialEq)]
pub struct FullRes;

/// Middle resolution polynomial parameters.
///
/// These are the parameters for middle resolution, according to the Inversed Tech report.
#[derive(Copy, Clone, Debug, Eq, PartialEq)]
pub struct MiddleRes;

} // verus!

verus! {

use crate::encoded::MatchError;
use crate::iris::{data_bit_len, data_bit_len_exec};

/// A coefficient read as a signed integer, assuming the range from all equal to all different
/// bits: values up to the data length are themselves, larger values are negative (`c - q`), and
/// negative values below `i64::MIN` are out of range.
pub open spec fn coeff_int<C: EncodeConf>(c: int) -> Option<int> {
    if c <= data_bit_len::<C::EyeConf>() {
        Some(c)
    } else if C::PlainConf::spec_modulus() - c <= i64::MAX {
        Some(c - C::PlainConf::spec_modulus())
    } else {
        None
    }
}

/// Converts a prime field element to a signed integer, assuming the range from all equal to all
/// different bits. Out of range values return `Err(err)`.
pub fn coeff_to_int<C: EncodeConf>(c: u128, err: MatchError) -> (r: Result<i64, MatchError>)
    requires
        (c as int) < C::PlainConf::spec_modulus(),
    ensures
        r == match coeff_int::<C>(c as int) {
            Some(v) => Ok::<i64, MatchError>(v as i64),
            None => Err(err),
        },
{
    proof {
        C::EyeConf::lemma_iris_conf_valid();
        C::PlainConf::lemma_conf_valid();
    }
    let data = data_bit_len_exec::<C::EyeConf>();
    if c <= data as u128 {
        Ok(c as i64)
    } else {
        let neg = C::PlainConf::modulus() - c;
        if neg <= i64::MAX as u128 {
            Ok(-(neg as i64))
        } else {
            Err(err)
        }
    }
}

/// Returns the `zero` value of a prime field element.
pub fn coeff_zero<C: EncodeConf>() -> (r: u128)
    ensures
        r == 0,
{
    0
}

/// Returns the `one` value of a prime field element.
pub fn coeff_one<C: EncodeConf>() -> (r: u128)
    ensures
        r == 1,
{
    1
}

} // verus!
