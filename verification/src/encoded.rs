//! Iris matching operations on polynomial-encoded bit vectors.
//!
//! Each block of rows of an iris code becomes one polynomial, with coefficient `1` for an unset
//! visible bit, `-1` for a set visible bit, and `0` for a masked bit. The stored code (variant
//! C1) lists each row's columns in reverse order; the query (variant C2) lists them in order,
//! padded on both sides with the columns that rotations bring in. Multiplying a query block by a
//! code block then yields, in a run of consecutive coefficients, `#equal - #different` for every
//! rotation at once.
use vstd::arithmetic::div_mod::*;
use vstd::arithmetic::mul::*;
use vstd::prelude::*;

use crate::iris::{data_bit_len, rotation_comparisons, rotation_comparisons_exec, IrisCode, IrisConf, IrisMask};
use crate::plaintext::index_1d;
use crate::primitives::poly::algebra::{get, ring_mul};
use crate::primitives::poly::mul::mul_poly;
use crate::primitives::field::modulus_ok;
use crate::primitives::poly::conf::PolyConf;
use crate::primitives::poly::Poly;

pub mod agreement;
pub mod conf;

pub use conf::{EncodeConf, FullRes, LargeRes, MiddleRes};
use conf::{coeff_int, coeff_to_int, encode_conf_valid, num_blocks, num_cols_and_pads};

verus! {

/// Errors that can happen during matching.
#[derive(Copy, Clone, Debug, Eq, PartialEq)]
pub enum MatchError {
    /// A plaintext coefficient was much larger than expected.
    PlaintextOutOfRange,
}

/// The coefficient encoding one iris bit: `0` when masked, `-1` (that is, `q - 1`) when set, and
/// `1` when unset.
pub open spec fn bit_coeff(visible: bool, set: bool, q: int) -> int {
    if !visible {
        0
    } else if set {
        q - 1
    } else {
        1
    }
}

/// The index of coefficient `i` in row `m` of a block whose rows are `d` coefficients apart.
pub open spec fn block_index(d: int, m: int, i: int) -> int {
    d * m + i
}

/// Storage variant C1: the coefficient at row `m`, position `i` of the block starting at
/// `first_row`. Rows are taken from the last row of the block backwards, and columns from the
/// last column backwards; positions past the columns are zero.
pub open spec fn code_bit<C: EncodeConf>(value: Seq<bool>, mask: Seq<bool>, first_row: int, m: int, i: int) -> int {
    let k = C::EyeConf::spec_columns() as int;
    let len = C::EyeConf::spec_column_len() as int;
    if i < k {
        let row = first_row + C::spec_rows_per_block() - 1 - m;
        let col = k - 1 - i;
        let bit = col * len + row;
        bit_coeff(mask[bit], value[bit], C::PlainConf::spec_modulus())
    } else {
        0
    }
}

/// Query variant C2: the coefficient at row `m`, position `i` of the block starting at
/// `first_row`. Position `i` holds column `i - v`, taken cyclically, where `v` is the rotation
/// limit.
pub open spec fn query_bit<C: EncodeConf>(value: Seq<bool>, mask: Seq<bool>, first_row: int, m: int, i: int) -> int {
    let k = C::EyeConf::spec_columns() as int;
    let len = C::EyeConf::spec_column_len() as int;
    let row = first_row + m;
    let col = (i - C::EyeConf::spec_rotation_limit()) % k;
    let bit = col * len + row;
    bit_coeff(mask[bit], value[bit], C::PlainConf::spec_modulus())
}

/// The coefficient at row `m`, position `i` of a block in the storage or the query variant.
pub open spec fn block_bit<C: EncodeConf>(value: Seq<bool>, mask: Seq<bool>, first_row: int, storage: bool, m: int, i: int) -> int {
    if storage {
        code_bit::<C>(value, mask, first_row, m, i)
    } else {
        query_bit::<C>(value, mask, first_row, m, i)
    }
}

/// `p` encodes the block starting at `first_row`: each row `m` holds its positions `i` at
/// `X^(d m + i)`, and there is nothing past the last row.
pub open spec fn encodes_block<C: EncodeConf>(p: Poly<C::PlainConf>, value: Seq<bool>, mask: Seq<bool>, first_row: int, storage: bool) -> bool {
    let d = num_cols_and_pads::<C>() as int;
    let s = C::spec_rows_per_block() as int;
    &&& forall|m: int, i: int|
        0 <= m < s && 0 <= i < d ==> #[trigger] p.coeff(block_index(d, m, i)) == block_bit::<C>(value, mask, first_row, storage, m, i)
    &&& forall|idx: int| idx >= s * d ==> #[trigger] p.coeff(idx) == 0
}

/// Block `b` of an encoding holds the encoded rows and their mask polynomial.
pub open spec fn block_encoded<C: EncodeConf>(
    poly: Poly<C::PlainConf>,
    mask_poly: Poly<C::PlainConf>,
    value: Seq<bool>,
    mask: Seq<bool>,
    b: int,
    storage: bool,
) -> bool {
    &&& poly.is_canonical()
    &&& mask_poly.is_canonical()
    &&& encodes_block::<C>(poly, value, mask, b * C::spec_rows_per_block(), storage)
    &&& is_mask_of(mask_poly, poly)
}

/// `polys` and `masks` encode every block of rows of `value` and `mask`, in the storage or the
/// query variant.
pub open spec fn encodes_all<C: EncodeConf>(
    polys: Seq<Poly<C::PlainConf>>,
    masks: Seq<Poly<C::PlainConf>>,
    value: Seq<bool>,
    mask: Seq<bool>,
    storage: bool,
) -> bool {
    &&& polys.len() == num_blocks::<C>()
    &&& masks.len() == num_blocks::<C>()
    &&& forall|b: int| 0 <= b < num_blocks::<C>() ==> block_encoded::<C>(#[trigger] polys[b], masks[b], value, mask, b, storage)
}

/// `masks` is the visibility polynomial of `bits`: `1` for each non-zero coefficient.
pub open spec fn is_mask_of<P: PolyConf>(masks: Poly<P>, bits: Poly<P>) -> bool {
    forall|i: int| #[trigger] masks.coeff(i) == if bits.coeff(i) == 0 { 0int } else { 1int }
}

/// An Iris code, encoded in polynomials. To be stored in the database.
pub struct PolyCode<C: EncodeConf> {
    /// The polynomials, encoding one block of rows each. Storage variant.
    pub polys: Vec<Poly<C::PlainConf>>,
    /// The mask polynomials.
    pub masks: Vec<Poly<C::PlainConf>>,
}

/// An Iris code, encoded in polynomials. To be matched against a [`PolyCode`].
pub struct PolyQuery<C: EncodeConf> {
    /// The polynomials, encoding one block of rows each. Query variant.
    pub polys: Vec<Poly<C::PlainConf>>,
    /// The mask polynomials.
    pub masks: Vec<Poly<C::PlainConf>>,
}

/// Fills row `m` of a block at positions `0..width` with the encoding of the given bits.
fn set_row<C: EncodeConf>(
    coeffs: &mut Vec<u128>,
    value: &IrisCode,
    mask: &IrisMask,
    first_row: usize,
    m: usize,
    width: usize,
    storage: bool,
)
    requires
        encode_conf_valid::<C>(),
        value.bits@.len() == data_bit_len::<C::EyeConf>(),
        mask.bits@.len() == data_bit_len::<C::EyeConf>(),
        old(coeffs)@.len() == C::PlainConf::spec_max_poly_degree(),
        first_row + C::spec_rows_per_block() <= C::EyeConf::spec_column_len(),
        m < C::spec_rows_per_block(),
        width == if storage { C::EyeConf::spec_columns() } else { num_cols_and_pads::<C>() },
    ensures
        final(coeffs)@.len() == old(coeffs)@.len(),
        forall|idx: int|
            0 <= idx < final(coeffs)@.len() && !(num_cols_and_pads::<C>() * m <= idx < num_cols_and_pads::<C>() * m + width)
                ==> final(coeffs)@[idx] == old(coeffs)@[idx],
        forall|i: int|
            0 <= i < width ==> #[trigger] final(coeffs)@[block_index(num_cols_and_pads::<C>() as int, m as int, i)] as int
                == block_bit::<C>(value.bits@, mask.bits@, first_row as int, storage, m as int, i),
{
    proof {
        C::lemma_encode_conf_valid();
        C::EyeConf::lemma_iris_conf_valid();
        C::PlainConf::lemma_conf_valid();
    }
    let q = C::PlainConf::modulus();
    let k = C::EyeConf::columns();
    let len = C::EyeConf::column_len();
    let s = C::rows_per_block();
    let limit = C::EyeConf::rotation_limit();
    let d = k + 2 * limit;
    let ghost orig = coeffs@;
    let row_i = if storage {
        first_row + s - 1 - m
    } else {
        first_row + m
    };
    proof {
        assert(d * m + width <= d * s) by (nonlinear_arith)
            requires m < s, width <= d;
        assert(row_i < len);
    }
    let mut i: usize = 0;
    while i < width
        invariant
            i <= width,
            encode_conf_valid::<C>(),
            q == C::PlainConf::spec_modulus(),
            k == C::EyeConf::spec_columns(),
            len == C::EyeConf::spec_column_len(),
            s == C::spec_rows_per_block(),
            limit == C::EyeConf::spec_rotation_limit(),
            d == num_cols_and_pads::<C>(),
            d * m + width <= d * s,
            d * s <= C::PlainConf::spec_max_poly_degree(),
            C::PlainConf::spec_max_poly_degree() <= 0x10_0000,
            k * len <= 0x10_0000,
            k <= 0x10_0000,
            2 * limit + 1 <= k,
            modulus_ok(q as int),
            k >= 1,
            row_i < len,
            row_i == if storage { first_row + s - 1 - m } else { first_row + m },
            m < s,
            width == if storage { k as nat } else { d as nat },
            value.bits@.len() == k * len,
            mask.bits@.len() == k * len,
            coeffs@.len() == orig.len(),
            orig.len() == C::PlainConf::spec_max_poly_degree(),
            forall|idx: int| 0 <= idx < coeffs@.len() && !(d * m <= idx < d * m + i) ==> coeffs@[idx] == orig[idx],
            forall|j: int|
                0 <= j < i ==> #[trigger] coeffs@[block_index(d as int, m as int, j)] as int
                    == block_bit::<C>(value.bits@, mask.bits@, first_row as int, storage, m as int, j),
        decreases width - i,
    {
        let col_i: usize = if storage {
            k - 1 - i
        } else {
            ((i + k - limit % k) % k)
        };
        proof {
            if !storage {
                let a = i as int - limit as int;
                lemma_fundamental_div_mod(limit as int, k as int);
                assert((i + k - limit % k) as int == a + (limit / k) * k + k) by (nonlinear_arith)
                    requires limit as int == k * (limit / k) + limit % k, a == i - limit;
                lemma_mod_multiples_vanish((limit / k) + 1, a, k as int);
                assert((a + (limit / k) * k + k) == a + ((limit / k) + 1) * k) by (nonlinear_arith);
            }
            assert(col_i < k);
            assert(col_i * len + row_i < k * len) by (nonlinear_arith)
                requires col_i < k, row_i < len;
        }
        let bit_i = index_1d(len, row_i, col_i);
        let c: u128 = if mask.bits[bit_i] {
            if value.bits[bit_i] {
                q - 1
            } else {
                1
            }
        } else {
            0
        };
        proof {
            assert(d * m + i < d * s);
        }
        coeffs.set(d * m + i, c);
        i += 1;
    }
}

/// Encodes one block of rows into one polynomial, in the storage variant C1 or the query
/// variant C2.
fn from_plaintext_block<C: EncodeConf>(value: &IrisCode, mask: &IrisMask, first_row: usize, storage: bool) -> (r: Poly<C::PlainConf>)
    requires
        encode_conf_valid::<C>(),
        value.bits@.len() == data_bit_len::<C::EyeConf>(),
        mask.bits@.len() == data_bit_len::<C::EyeConf>(),
        first_row + C::spec_rows_per_block() <= C::EyeConf::spec_column_len(),
    ensures
        r.is_canonical(),
        encodes_block::<C>(r, value.bits@, mask.bits@, first_row as int, storage),
{
    proof {
        C::lemma_encode_conf_valid();
        C::EyeConf::lemma_iris_conf_valid();
        C::PlainConf::lemma_conf_valid();
    }
    let n = C::PlainConf::max_poly_degree();
    let s = C::rows_per_block();
    let ghost d = num_cols_and_pads::<C>() as int;
    let width = if storage {
        C::EyeConf::columns()
    } else {
        C::EyeConf::columns() + 2 * C::EyeConf::rotation_limit()
    };
    let mut coeffs = Poly::<C::PlainConf>::non_canonical_zeroes(n).coeffs;
    let mut m: usize = 0;
    while m < s
        invariant
            m <= s,
            encode_conf_valid::<C>(),
            s == C::spec_rows_per_block(),
            n == C::PlainConf::spec_max_poly_degree(),
            d == num_cols_and_pads::<C>(),
            d * s <= n,
            width <= d,
            width == if storage { C::EyeConf::spec_columns() } else { num_cols_and_pads::<C>() },
            value.bits@.len() == data_bit_len::<C::EyeConf>(),
            mask.bits@.len() == data_bit_len::<C::EyeConf>(),
            first_row + C::spec_rows_per_block() <= C::EyeConf::spec_column_len(),
            coeffs@.len() == n,
            forall|idx: int| 0 <= idx < n && idx >= d * m ==> coeffs@[idx] == 0,
            forall|mm: int, i: int|
                0 <= mm < m && 0 <= i < d ==> #[trigger] coeffs@[block_index(d, mm, i)] as int == (if i < width {
                    block_bit::<C>(value.bits@, mask.bits@, first_row as int, storage, mm, i)
                } else {
                    0
                }),
            forall|idx: int| 0 <= idx < n ==> (coeffs@[idx] as int) < C::PlainConf::spec_modulus(),
            modulus_ok(C::PlainConf::spec_modulus()),
        decreases s - m,
    {
        let ghost before = coeffs@;
        set_row::<C>(&mut coeffs, value, mask, first_row, m, width, storage);
        proof {
            assert forall|mm: int, i: int| 0 <= mm < m + 1 && 0 <= i < d implies #[trigger] coeffs@[block_index(d, mm, i)] as int == (if i < width {
                block_bit::<C>(value.bits@, mask.bits@, first_row as int, storage, mm, i)
            } else {
                0
            }) by {
                assert(d * mm + i < d * s) by (nonlinear_arith)
                    requires 0 <= mm < s, 0 <= i < d;
                if mm < m {
                    assert(d * mm + i < d * m) by (nonlinear_arith)
                        requires 0 <= mm < m, 0 <= i < d;
                } else if i >= width {
                    assert(coeffs@[block_index(d, mm, i)] == before[block_index(d, mm, i)]);
                }
            }
            assert forall|idx: int| 0 <= idx < n && idx >= d * (m + 1) implies coeffs@[idx] == 0 by {
                assert(d * (m + 1) == d * m + d) by (nonlinear_arith);
            }
            assert forall|idx: int| 0 <= idx < n implies (coeffs@[idx] as int) < C::PlainConf::spec_modulus() by {
                if d * m <= idx < d * m + width {
                    let i = idx - d * m;
                    assert(idx == block_index(d, m as int, i));
                }
            }
        }
        m += 1;
    }
    let mut r = Poly::<C::PlainConf> { coeffs, conf: core::marker::PhantomData };
    let ghost full = r.coeffs@;
    r.truncate_to_canonical_form();
    proof {
        assert forall|i: int| r.coeff(i) == get(crate::primitives::poly::algebra::ints(full), i) by {
            if 0 <= i < full.len() && i >= r.coeffs@.len() {
                assert(full[i] == 0);
            }
        }
        assert forall|mm: int, i: int| 0 <= mm < s && 0 <= i < d implies #[trigger] r.coeff(block_index(d, mm, i)) == block_bit::<C>(value.bits@, mask.bits@, first_row as int, storage, mm, i) by {
            assert(d * mm + i < d * s) by (nonlinear_arith)
                requires 0 <= mm < s, 0 <= i < d;
            if i >= width {
                // past the last column of the storage variant
                assert(storage);
            }
        }
    }
    r
}

impl<C: EncodeConf> PolyCode<C> {
    /// Create a new `PolyCode` from a plaintext iris code and mask: one storage-variant
    /// polynomial per block of rows, and its mask polynomial.
    pub fn from_plaintext(value: &IrisCode, mask: &IrisMask) -> (r: Self)
        requires
            value.bits@.len() == data_bit_len::<C::EyeConf>(),
            mask.bits@.len() == data_bit_len::<C::EyeConf>(),
        ensures
            encodes_all::<C>(r.polys@, r.masks@, value.bits@, mask.bits@, true),
    {
        let (polys, masks) = encode_blocks::<C>(value, mask, true);
        PolyCode { polys, masks }
    }
}

impl<C: EncodeConf> PolyQuery<C> {
    /// Create a new `PolyQuery` from a plaintext iris code and mask: one query-variant
    /// polynomial per block of rows, and its mask polynomial.
    pub fn from_plaintext(value: &IrisCode, mask: &IrisMask) -> (r: Self)
        requires
            value.bits@.len() == data_bit_len::<C::EyeConf>(),
            mask.bits@.len() == data_bit_len::<C::EyeConf>(),
        ensures
            encodes_all::<C>(r.polys@, r.masks@, value.bits@, mask.bits@, false),
    {
        let (polys, masks) = encode_blocks::<C>(value, mask, false);
        PolyQuery { polys, masks }
    }
}

/// Encodes every block of rows, and the mask polynomial of each.
fn encode_blocks<C: EncodeConf>(value: &IrisCode, mask: &IrisMask, storage: bool) -> (r: (Vec<Poly<C::PlainConf>>, Vec<Poly<C::PlainConf>>))
    requires
        value.bits@.len() == data_bit_len::<C::EyeConf>(),
        mask.bits@.len() == data_bit_len::<C::EyeConf>(),
    ensures
        r.0@.len() == num_blocks::<C>(),
        r.1@.len() == num_blocks::<C>(),
        forall|b: int|
            0 <= b < num_blocks::<C>() ==> block_encoded::<C>(#[trigger] r.0@[b], r.1@[b], value.bits@, mask.bits@, b, storage),
{
    proof {
        C::lemma_encode_conf_valid();
    }
    proof {
        C::EyeConf::lemma_iris_conf_valid();
        assert(C::EyeConf::spec_column_len() <= 0x10_0000) by (nonlinear_arith)
            requires C::EyeConf::spec_columns() * C::EyeConf::spec_column_len() <= 0x10_0000, C::EyeConf::spec_columns() >= 1;
    }
    let blocks = C::EyeConf::column_len() / C::rows_per_block();
    let s = C::rows_per_block();
    let mut polys: Vec<Poly<C::PlainConf>> = Vec::new();
    let mut masks: Vec<Poly<C::PlainConf>> = Vec::new();
    let mut b: usize = 0;
    while b < blocks
        invariant
            b <= blocks,
            encode_conf_valid::<C>(),
            blocks == num_blocks::<C>(),
            s == C::spec_rows_per_block(),
            blocks * s == C::EyeConf::spec_column_len(),
            C::EyeConf::spec_column_len() <= 0x10_0000,
            value.bits@.len() == data_bit_len::<C::EyeConf>(),
            mask.bits@.len() == data_bit_len::<C::EyeConf>(),
            polys@.len() == b,
            masks@.len() == b,
            forall|bb: int|
                0 <= bb < b ==> block_encoded::<C>(#[trigger] polys@[bb], masks@[bb], value.bits@, mask.bits@, bb, storage),
        decreases blocks - b,
    {
        proof {
            assert(b * s + s <= blocks * s) by (nonlinear_arith)
                requires b < blocks, s >= 1;
        }
        let p = from_plaintext_block::<C>(value, mask, b * s, storage);
        let mk = poly_bits_to_masks::<C::PlainConf>(&p);
        let ghost old_polys = polys@;
        let ghost old_masks = masks@;
        polys.push(p);
        masks.push(mk);
        proof {
            assert forall|bb: int| 0 <= bb < b + 1 implies block_encoded::<C>(#[trigger] polys@[bb], masks@[bb], value.bits@, mask.bits@, bb, storage) by {
                if bb < b {
                    assert(polys@[bb] == old_polys[bb]);
                    assert(masks@[bb] == old_masks[bb]);
                } else {
                    assert(polys@[bb] == p);
                    assert(masks@[bb] == mk);
                    assert((b * s) as int == bb * C::spec_rows_per_block());
                }
            }
        }
        b += 1;
    }
    let r = (polys, masks);
    proof {
        assert forall|bb: int| 0 <= bb < num_blocks::<C>() implies block_encoded::<C>(#[trigger] r.0@[bb], r.1@[bb], value.bits@, mask.bits@, bb, storage) by {
            assert(polys@[bb] == r.0@[bb]);
        }
    }
    r
}

/// Create a mask polynomial from a polynomial of encoded bits: `1` for each non-zero coefficient.
pub fn poly_bits_to_masks<P: PolyConf>(bits: &Poly<P>) -> (r: Poly<P>)
    requires
        bits.is_canonical(),
    ensures
        r.is_canonical(),
        is_mask_of(r, *bits),
{
    proof {
        P::lemma_conf_valid();
    }
    let n = bits.coeffs.len();
    let mut coeffs: Vec<u128> = Vec::new();
    let mut i: usize = 0;
    while i < n
        invariant
            i <= n,
            n == bits.coeffs@.len(),
            coeffs@.len() == i,
            forall|j: int| 0 <= j < i ==> coeffs@[j] == if bits.coeffs@[j] == 0 { 0u128 } else { 1u128 },
        decreases n - i,
    {
        coeffs.push(if bits.coeffs[i] == 0 { 0 } else { 1 });
        i += 1;
    }
    let r = Poly::<P> { coeffs, conf: core::marker::PhantomData };
    proof {
        if n > 0 {
            assert(bits.coeffs@[n - 1] != 0);
        }
    }
    r
}


/// The product of two block polynomials in the plaintext ring. Its coefficient at
/// [`inner_product_index`] `(r)` is the inner product of the blocks for rotation number `r`.
pub open spec fn block_product<C: EncodeConf>(a: Poly<C::PlainConf>, b: Poly<C::PlainConf>) -> Seq<int> {
    ring_mul(a.ints(), b.ints(), C::PlainConf::spec_max_poly_degree(), C::PlainConf::spec_modulus())
}

/// The index of the product coefficient that holds the inner product for rotation number `r`:
/// from the left-most rotation at `s δ - (2v + 1)` to the right-most at `s δ - 1`.
pub open spec fn inner_product_index<C: EncodeConf>(r: int) -> int {
    C::spec_rows_per_block() * num_cols_and_pads::<C>() - rotation_comparisons::<C::EyeConf>() + r
}

/// The inner product of block `blk` for rotation number `r`, read as a signed count.
pub open spec fn block_count<C: EncodeConf>(a: Seq<Poly<C::PlainConf>>, b: Seq<Poly<C::PlainConf>>, blk: int, r: int) -> Option<int> {
    coeff_int::<C>(get(block_product::<C>(a[blk], b[blk]), inner_product_index::<C>(r)))
}

/// Every inner product of the first `upto` blocks can be read as a signed count.
pub open spec fn counts_in_range<C: EncodeConf>(a: Seq<Poly<C::PlainConf>>, b: Seq<Poly<C::PlainConf>>, upto: int) -> bool {
    forall|blk: int, r: int|
        0 <= blk < upto && 0 <= r < rotation_comparisons::<C::EyeConf>() ==> #[trigger] block_count::<C>(a, b, blk, r) is Some
}

/// The counts of rotation number `r`, summed over the first `upto` blocks.
pub open spec fn count_sum<C: EncodeConf>(a: Seq<Poly<C::PlainConf>>, b: Seq<Poly<C::PlainConf>>, r: int, upto: nat) -> int
    decreases upto,
{
    if upto == 0 {
        0
    } else {
        count_sum::<C>(a, b, r, (upto - 1) as nat) + block_count::<C>(a, b, upto - 1, r)->0
    }
}

/// With `d = #equal - #different` and `t` unmasked bits, the Hamming distance is under the
/// threshold: `(t - d) / 2t <= numerator / denominator`.
pub open spec fn meets_threshold<C: EncodeConf>(d: int, t: int) -> bool {
    (t - d) * C::EyeConf::spec_match_denominator() <= 2 * t * C::EyeConf::spec_match_numerator()
}

/// The encoded query and code meet the threshold in rotation number `r`.
pub open spec fn encoded_rotation_matches<C: EncodeConf>(
    query_polys: Seq<Poly<C::PlainConf>>,
    code_polys: Seq<Poly<C::PlainConf>>,
    query_masks: Seq<Poly<C::PlainConf>>,
    code_masks: Seq<Poly<C::PlainConf>>,
    r: int,
) -> bool {
    meets_threshold::<C>(
        count_sum::<C>(query_polys, code_polys, r, query_polys.len()),
        count_sum::<C>(query_masks, code_masks, r, query_masks.len()),
    )
}

/// The encoded query and code match in at least one rotation.
pub open spec fn encoded_match<C: EncodeConf>(
    query_polys: Seq<Poly<C::PlainConf>>,
    code_polys: Seq<Poly<C::PlainConf>>,
    query_masks: Seq<Poly<C::PlainConf>>,
    code_masks: Seq<Poly<C::PlainConf>>,
) -> bool {
    exists|r: int|
        0 <= r < rotation_comparisons::<C::EyeConf>()
            && #[trigger] encoded_rotation_matches::<C>(query_polys, code_polys, query_masks, code_masks, r)
}

/// Every polynomial in the sequence is in canonical form.
pub open spec fn all_canonical<P: PolyConf>(polys: Seq<Poly<P>>) -> bool {
    forall|i: int| 0 <= i < polys.len() ==> #[trigger] polys[i].is_canonical()
}

/// A readable count lies between `-i64::MAX` and the data length.
proof fn lemma_block_count_range<C: EncodeConf>(a: Seq<Poly<C::PlainConf>>, b: Seq<Poly<C::PlainConf>>, blk: int, r: int)
    requires
        block_count::<C>(a, b, blk, r) is Some,
    ensures
        -0x7fff_ffff_ffff_ffff <= block_count::<C>(a, b, blk, r)->0 <= 0x10_0000,
{
    C::EyeConf::lemma_iris_conf_valid();
    C::PlainConf::lemma_conf_valid();
    let p = block_product::<C>(a[blk], b[blk]);
    let idx = inner_product_index::<C>(r);
    let q = C::PlainConf::spec_modulus();
    if 0 <= idx < p.len() {
        lemma_mod_bound(
            crate::primitives::poly::algebra::fold_upto(
                crate::primitives::poly::algebra::conv_seq(a[blk].ints(), b[blk].ints()),
                C::PlainConf::spec_max_poly_degree() as int,
                idx,
                crate::primitives::poly::algebra::conv_seq(a[blk].ints(), b[blk].ints()).len() as int,
            ),
            q,
        );
    }
    assert(0 <= get(p, idx) < q);
    assert(data_bit_len::<C::EyeConf>() <= 0x10_0000) by (nonlinear_arith)
        requires
            C::EyeConf::spec_columns() * C::EyeConf::spec_column_len() <= 0x10_0000,
            data_bit_len::<C::EyeConf>() == C::EyeConf::spec_column_len() * C::EyeConf::spec_columns();
}

/// A sum of `upto` readable counts lies between `-upto * i64::MAX` and `upto * 2^20`.
proof fn lemma_count_sum_range<C: EncodeConf>(a: Seq<Poly<C::PlainConf>>, b: Seq<Poly<C::PlainConf>>, r: int, upto: nat)
    requires
        counts_in_range::<C>(a, b, upto as int),
        0 <= r < rotation_comparisons::<C::EyeConf>(),
    ensures
        -0x7fff_ffff_ffff_ffff * upto <= count_sum::<C>(a, b, r, upto) <= 0x10_0000 * upto,
    decreases upto,
{
    if upto > 0 {
        lemma_count_sum_range::<C>(a, b, r, (upto - 1) as nat);
        assert(block_count::<C>(a, b, upto - 1, r) is Some);
        lemma_block_count_range::<C>(a, b, upto - 1, r);
    }
}

/// Accumulates the inner products of the polynomials for each block of rows. The result for each
/// rotation is `D = #equal_bits - #different_bits`, summed over the blocks.
fn accumulate_inner_products<C: EncodeConf>(a_polys: &Vec<Poly<C::PlainConf>>, b_polys: &Vec<Poly<C::PlainConf>>) -> (r: Result<Vec<i128>, MatchError>)
    requires
        a_polys@.len() == b_polys@.len(),
        a_polys@.len() <= 0x1_0000_0000,
        all_canonical(a_polys@),
        all_canonical(b_polys@),
    ensures
        match r {
            Ok(counts) => {
                &&& counts_in_range::<C>(a_polys@, b_polys@, a_polys@.len() as int)
                &&& counts@.len() == rotation_comparisons::<C::EyeConf>()
                &&& forall|j: int|
                    0 <= j < counts@.len() ==> #[trigger] counts@[j] == count_sum::<C>(a_polys@, b_polys@, j, a_polys@.len())
            },
            Err(e) => {
                &&& !counts_in_range::<C>(a_polys@, b_polys@, a_polys@.len() as int)
                &&& e == MatchError::PlaintextOutOfRange
            },
        },
{
    proof {
        C::lemma_encode_conf_valid();
        C::EyeConf::lemma_iris_conf_valid();
        C::PlainConf::lemma_conf_valid();
    }
    let rc = rotation_comparisons_exec::<C::EyeConf>();
    let s = C::rows_per_block();
    let d = C::EyeConf::columns() + 2 * C::EyeConf::rotation_limit();
    proof {
        assert(d * s <= C::PlainConf::spec_max_poly_degree());
        assert(rc <= d * s) by (nonlinear_arith)
            requires rc <= d, s >= 1;
        assert(s * d == d * s) by (nonlinear_arith);
    }
    let base = s * d - rc;
    let mut counts: Vec<i128> = Vec::new();
    let mut j: usize = 0;
    while j < rc
        invariant
            j <= rc,
            counts@.len() == j,
            forall|jj: int| 0 <= jj < j ==> counts@[jj] == 0,
        decreases rc - j,
    {
        counts.push(0);
        j += 1;
    }
    let ghost a = a_polys@;
    let ghost b = b_polys@;
    let n = a_polys.len();
    let mut blk: usize = 0;
    while blk < n
        invariant
            blk <= n,
            n == a.len(),
            a == a_polys@,
            b == b_polys@,
            a.len() == b.len(),
            n <= 0x1_0000_0000,
            all_canonical(a),
            all_canonical(b),
            rc == rotation_comparisons::<C::EyeConf>(),
            base + rc <= C::PlainConf::spec_max_poly_degree(),
            base == inner_product_index::<C>(0),
            C::PlainConf::spec_max_poly_degree() <= 0x10_0000,
            C::PlainConf::spec_modulus() > 2,
            counts@.len() == rc,
            counts_in_range::<C>(a, b, blk as int),
            forall|jj: int| 0 <= jj < rc ==> #[trigger] counts@[jj] == count_sum::<C>(a, b, jj, blk as nat),
        decreases n - blk,
    {
        proof {
            assert(a[blk as int].is_canonical());
            assert(b[blk as int].is_canonical());
        }
        let product = mul_poly(&a_polys[blk], &b_polys[blk]);
        proof {
            product.lemma_canonical_ring();
            assert(product.ring() == block_product::<C>(a[blk as int], b[blk as int]));
        }
        let mut rr: usize = 0;
        while rr < rc
            invariant
                rr <= rc,
                blk < n,
                n == a.len(),
                a == a_polys@,
                b == b_polys@,
                a.len() == b.len(),
                n <= 0x1_0000_0000,
                rc == rotation_comparisons::<C::EyeConf>(),
                base + rc <= C::PlainConf::spec_max_poly_degree(),
                base == inner_product_index::<C>(0),
                product.ring() == block_product::<C>(a[blk as int], b[blk as int]),
                product.ring() == product.dense(),
                product.is_canonical(),
                C::PlainConf::spec_max_poly_degree() <= 0x10_0000,
                C::PlainConf::spec_modulus() > 2,
                counts@.len() == rc,
                counts_in_range::<C>(a, b, blk as int),
                forall|jj: int| 0 <= jj < rr ==> #[trigger] block_count::<C>(a, b, blk as int, jj) is Some,
                forall|jj: int| 0 <= jj < rr ==> #[trigger] counts@[jj] == count_sum::<C>(a, b, jj, (blk + 1) as nat),
                forall|jj: int| rr <= jj < rc ==> #[trigger] counts@[jj] == count_sum::<C>(a, b, jj, blk as nat),
            decreases rc - rr,
        {
            let idx = base + rr;
            let c: u128 = if idx < product.coeffs.len() {
                product.coeffs[idx]
            } else {
                0
            };
            proof {
                assert(c as int == get(product.dense(), idx as int));
                assert(idx as int == inner_product_index::<C>(rr as int));
                if idx < product.coeffs.len() {
                    assert((product.coeffs@[idx as int] as int) < C::PlainConf::spec_modulus());
                }
                assert((c as int) < C::PlainConf::spec_modulus());
            }
            match coeff_to_int::<C>(c, MatchError::PlaintextOutOfRange) {
                Ok(v) => {
                    proof {
                        assert(block_count::<C>(a, b, blk as int, rr as int) is Some);
                        lemma_block_count_range::<C>(a, b, blk as int, rr as int);
                        assert(block_count::<C>(a, b, blk as int, rr as int) == Some(v as int));
                        assert(counts_in_range::<C>(a, b, blk as int));
                        lemma_count_sum_range::<C>(a, b, rr as int, blk as nat);
                        assert(-0x7fff_ffff_ffff_ffff * blk <= count_sum::<C>(a, b, rr as int, blk as nat) <= 0x10_0000 * blk);
                        assert(0x7fff_ffff_ffff_ffff * blk <= 0x7fff_ffff_ffff_ffff * 0x1_0000_0000) by (nonlinear_arith)
                            requires blk <= 0x1_0000_0000;
                        assert(0x10_0000 * blk <= 0x10_0000 * 0x1_0000_0000) by (nonlinear_arith)
                            requires blk <= 0x1_0000_0000;
                    }
                    let updated = counts[rr] + v as i128;
                    counts.set(rr, updated);
                },
                Err(e) => {
                    proof {
                        assert(block_count::<C>(a, b, blk as int, rr as int) is None);
                        assert(!counts_in_range::<C>(a, b, n as int));
                    }
                    return Err(e);
                },
            }
            rr += 1;
        }
        proof {
            assert forall|bb: int, jj: int| 0 <= bb < blk + 1 && 0 <= jj < rotation_comparisons::<C::EyeConf>() implies #[trigger] block_count::<C>(a, b, bb, jj) is Some by {
                if bb < blk {
                    assert(counts_in_range::<C>(a, b, blk as int));
                }
            }
        }
        blk += 1;
    }
    Ok(counts)
}

impl<C: EncodeConf> PolyQuery<C> {
    /// Returns true if `self` and `code` have enough identical bits to meet the threshold, in at
    /// least one rotation. Fails when an inner product is too far out of range to be a count.
    pub fn is_match(&self, code: &PolyCode<C>) -> (r: Result<bool, MatchError>)
        requires
            self.polys@.len() == code.polys@.len(),
            self.masks@.len() == code.masks@.len(),
            self.polys@.len() <= 0x1_0000_0000,
            self.masks@.len() <= 0x1_0000_0000,
            all_canonical(self.polys@),
            all_canonical(self.masks@),
            all_canonical(code.polys@),
            all_canonical(code.masks@),
        ensures
            match r {
                Ok(m) => {
                    &&& counts_in_range::<C>(self.polys@, code.polys@, self.polys@.len() as int)
                    &&& counts_in_range::<C>(self.masks@, code.masks@, self.masks@.len() as int)
                    &&& m == encoded_match::<C>(self.polys@, code.polys@, self.masks@, code.masks@)
                },
                Err(e) => {
                    &&& !(counts_in_range::<C>(self.polys@, code.polys@, self.polys@.len() as int)
                        && counts_in_range::<C>(self.masks@, code.masks@, self.masks@.len() as int))
                    &&& e == MatchError::PlaintextOutOfRange
                },
            },
    {
        proof {
            C::EyeConf::lemma_iris_conf_valid();
        }
        let match_counts = match accumulate_inner_products::<C>(&self.polys, &code.polys) {
            Ok(c) => c,
            Err(e) => return Err(e),
        };
        let mask_counts = match accumulate_inner_products::<C>(&self.masks, &code.masks) {
            Ok(c) => c,
            Err(e) => return Err(e),
        };
        let den = C::EyeConf::match_denominator();
        let num = C::EyeConf::match_numerator();
        let rc = match_counts.len();
        let ghost qp = self.polys@;
        let ghost cp = code.polys@;
        let ghost qm = self.masks@;
        let ghost cm = code.masks@;
        let mut rr: usize = 0;
        while rr < rc
            invariant
                rr <= rc,
                rc == rotation_comparisons::<C::EyeConf>(),
                match_counts@.len() == rc,
                mask_counts@.len() == rc,
                qp == self.polys@,
                cp == code.polys@,
                qm == self.masks@,
                cm == code.masks@,
                qp.len() <= 0x1_0000_0000,
                qm.len() <= 0x1_0000_0000,
                den == C::EyeConf::spec_match_denominator(),
                num == C::EyeConf::spec_match_numerator(),
                0 < den <= 1000,
                num <= den,
                counts_in_range::<C>(qp, cp, qp.len() as int),
                counts_in_range::<C>(qm, cm, qm.len() as int),
                forall|jj: int| 0 <= jj < rc ==> #[trigger] match_counts@[jj] == count_sum::<C>(qp, cp, jj, qp.len()),
                forall|jj: int| 0 <= jj < rc ==> #[trigger] mask_counts@[jj] == count_sum::<C>(qm, cm, jj, qm.len()),
                forall|jj: int| 0 <= jj < rr ==> !#[trigger] encoded_rotation_matches::<C>(qp, cp, qm, cm, jj),
            decreases rc - rr,
        {
            let d = match_counts[rr];
            let t = mask_counts[rr];
            proof {
                lemma_count_sum_range::<C>(qp, cp, rr as int, qp.len());
                lemma_count_sum_range::<C>(qm, cm, rr as int, qm.len());
                let lp = qp.len() as int;
                let lm = qm.len() as int;
                assert(0x7fff_ffff_ffff_ffff * lp <= 0x7fff_ffff_ffff_ffff * 0x1_0000_0000) by (nonlinear_arith)
                    requires lp <= 0x1_0000_0000;
                assert(0x7fff_ffff_ffff_ffff * lm <= 0x7fff_ffff_ffff_ffff * 0x1_0000_0000) by (nonlinear_arith)
                    requires lm <= 0x1_0000_0000;
                assert(0x10_0000 * lp <= 0x10_0000 * 0x1_0000_0000) by (nonlinear_arith)
                    requires lp <= 0x1_0000_0000;
                assert(0x10_0000 * lm <= 0x10_0000 * 0x1_0000_0000) by (nonlinear_arith)
                    requires lm <= 0x1_0000_0000;
                let x = t - d;
                assert(-0x1000_0000_0000_0000_0000_0000_0000 <= x * den <= 0x1000_0000_0000_0000_0000_0000_0000) by (nonlinear_arith)
                    requires -0x1_0000_0000_0000_0000_0000_0000 <= x <= 0x1_0000_0000_0000_0000_0000_0000, 0 < den <= 1000;
                assert(-0x1000_0000_0000_0000_0000_0000_0000 <= 2 * t * num <= 0x1000_0000_0000_0000_0000_0000_0000) by (nonlinear_arith)
                    requires -0x1_0000_0000_0000_0000_0000_0000 <= t <= 0x1_0000_0000_0000_0000_0000_0000, num <= 1000;
            }
            let lhs = (t - d) * (den as i128);
            let rhs = 2 * t * (num as i128);
            if lhs <= rhs {
                proof {
                    assert(encoded_rotation_matches::<C>(qp, cp, qm, cm, rr as int));
                }
                return Ok(true);
            }
            rr += 1;
        }
        Ok(false)
    }
}

} // verus!
