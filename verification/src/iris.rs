//! Base iris configurations and data, shared by all encoding and encryption schemes.
//!
//! These parameters are from the Inversed Tech report "Polynomial Encodings for FHE Relative
//! Hamming Comparison v2".
use vstd::prelude::*;

use crate::conf::{FullBits, MiddleBits, TinyTest};

verus! {

/// The parameters an iris configuration must have.
pub open spec fn iris_conf_valid(columns: nat, column_len: nat, rotation_limit: nat, numerator: nat, denominator: nat) -> bool {
    &&& columns >= 1
    &&& column_len >= 1
    &&& columns <= 0x10_0000
    &&& columns * column_len <= 0x10_0000
    // Rotating more than the number of columns is redundant.
    &&& 2 * rotation_limit + 1 <= columns
    // The match fraction is between 0 and 1.
    &&& numerator <= denominator
    &&& 0 < denominator <= 1000
}

/// The dimensions and matching rules for the entire iris code.
pub trait IrisConf {
    /// The number of columns in an iris code or mask, `k`.
    spec fn spec_columns() -> nat;

    /// The number of rows in an iris code or mask.
    spec fn spec_column_len() -> nat;

    /// The rotation limit `v`: each column is compared to the `v` columns to its left and right.
    spec fn spec_rotation_limit() -> nat;

    /// The numerator of the bit match threshold for a successful iris match.
    spec fn spec_match_numerator() -> nat;

    /// The denominator of the bit match threshold for a successful iris match.
    spec fn spec_match_denominator() -> nat;

    /// Returns the number of columns.
    fn columns() -> (r: usize)
        ensures
            r == Self::spec_columns(),
    ;

    /// Returns the number of rows.
    fn column_len() -> (r: usize)
        ensures
            r == Self::spec_column_len(),
    ;

    /// Returns the rotation limit.
    fn rotation_limit() -> (r: usize)
        ensures
            r == Self::spec_rotation_limit(),
    ;

    /// Returns the match threshold numerator (36 by default).
    fn match_numerator() -> (r: usize)
        ensures
            r == Self::spec_match_numerator(),
    ;

    /// Returns the match threshold denominator (100 by default).
    fn match_denominator() -> (r: usize)
        ensures
            r == Self::spec_match_denominator(),
    ;

    /// The parameters are valid.
    proof fn lemma_iris_conf_valid()
        ensures
            iris_conf_valid(
                Self::spec_columns(),
                Self::spec_column_len(),
                Self::spec_rotation_limit(),
                Self::spec_match_numerator(),
                Self::spec_match_denominator(),
            ),
    ;
}

/// The length of an iris code or mask: rows times columns.
pub open spec fn data_bit_len<C: IrisConf>() -> nat {
    C::spec_column_len() * C::spec_columns()
}

/// The number of rotations used when comparing irises, `2v + 1`, including no rotation.
pub open spec fn rotation_comparisons<C: IrisConf>() -> nat {
    2 * C::spec_rotation_limit() + 1
}

/// Returns the length of an iris code or mask.
pub fn data_bit_len_exec<C: IrisConf>() -> (r: usize)
    ensures
        r == data_bit_len::<C>(),
{
    proof {
        C::lemma_iris_conf_valid();
    }
    C::column_len() * C::columns()
}

/// Returns the number of rotations used when comparing irises.
pub fn rotation_comparisons_exec<C: IrisConf>() -> (r: usize)
    ensures
        r == rotation_comparisons::<C>(),
{
    proof {
        C::lemma_iris_conf_valid();
    }
    C::rotation_limit() * 2 + 1
}

/// An iris code: the iris data from an iris scan, stored column by column.
///
/// The encoding of an iris code is arbitrary, because matching only checks for equal bits.
#[derive(Debug, PartialEq, Eq)]
pub struct IrisCode {
    /// The bits, column by column.
    pub bits: Vec<bool>,
}

impl Clone for IrisCode {
    fn clone(&self) -> (r: Self)
        ensures
            r.bits@ == self.bits@,
    {
        let bits = self.bits.clone();
        assert(bits@ =~= self.bits@);
        IrisCode { bits }
    }
}

/// An iris mask: the occlusion data from an iris scan, with `true` for a comparable bit and
/// `false` for a masked bit. See [`IrisCode`].
pub type IrisMask = IrisCode;

impl IrisConf for FullBits {
    open spec fn spec_columns() -> nat {
        200
    }

    open spec fn spec_column_len() -> nat {
        64
    }

    open spec fn spec_rotation_limit() -> nat {
        15
    }

    open spec fn spec_match_numerator() -> nat {
        36
    }

    open spec fn spec_match_denominator() -> nat {
        100
    }

    fn columns() -> (r: usize) {
        200
    }

    fn column_len() -> (r: usize) {
        16 * 2 * 2
    }

    fn rotation_limit() -> (r: usize) {
        15
    }

    fn match_numerator() -> (r: usize) {
        36
    }

    fn match_denominator() -> (r: usize) {
        100
    }

    proof fn lemma_iris_conf_valid() {
    }
}

impl IrisConf for MiddleBits {
    open spec fn spec_columns() -> nat {
        100
    }

    open spec fn spec_column_len() -> nat {
        32
    }

    open spec fn spec_rotation_limit() -> nat {
        15
    }

    open spec fn spec_match_numerator() -> nat {
        36
    }

    open spec fn spec_match_denominator() -> nat {
        100
    }

    fn columns() -> (r: usize) {
        100
    }

    fn column_len() -> (r: usize) {
        8 * 2 * 2
    }

    fn rotation_limit() -> (r: usize) {
        15
    }

    fn match_numerator() -> (r: usize) {
        36
    }

    fn match_denominator() -> (r: usize) {
        100
    }

    proof fn lemma_iris_conf_valid() {
    }
}

impl IrisConf for TinyTest {
    open spec fn spec_columns() -> nat {
        3
    }

    open spec fn spec_column_len() -> nat {
        2
    }

    open spec fn spec_rotation_limit() -> nat {
        1
    }

    open spec fn spec_match_numerator() -> nat {
        36
    }

    open spec fn spec_match_denominator() -> nat {
        100
    }

    fn columns() -> (r: usize) {
        3
    }

    fn column_len() -> (r: usize) {
        2
    }

    fn rotation_limit() -> (r: usize) {
        1
    }

    fn match_numerator() -> (r: usize) {
        36
    }

    fn match_denominator() -> (r: usize) {
        100
    }

    proof fn lemma_iris_conf_valid() {
    }
}

} // verus!
