//! Matching encoded iris codes is matching the iris codes themselves.
//!
//! The argument: a block coefficient is congruent to the sign of its bit (`1`, `-1` or `0`); the
//! product coefficient for a rotation is then, modulo `q`, the sum over the block's rows and
//! columns of the sign products, which is `#equal - #different` for that rotation; summing over
//! the blocks and regrouping gives the plaintext counts of the same rotation.
use vstd::arithmetic::div_mod::*;
use vstd::arithmetic::mul::*;
use vstd::prelude::*;

use crate::encoded::conf::{coeff_int, EncodeConf, encode_conf_valid, num_blocks, num_cols_and_pads};
use crate::encoded::{
    all_canonical, block_bit, block_count, block_encoded, block_index, block_product, count_sum, counts_in_range,
    encoded_match, encoded_rotation_matches, encodes_all, encodes_block, inner_product_index, is_mask_of,
    meets_threshold, PolyCode, PolyQuery,
};
use crate::iris::{data_bit_len, rotation_comparisons, IrisConf};
use crate::primitives::poly::algebra::{
    cong, conv, conv_seq, conv_upto, fold_upto, get, lemma_conv_cong, lemma_conv_outside, lemma_conv_upto_sum,
    lemma_fold_zero_tail, lemma_get_conv_seq, lemma_ring_seq_cong, ring_seq,
};
use crate::plaintext::{
    aligned_match, count_differences, count_unmasked, iris_match, lemma_count_differences_sum, lemma_count_unmasked_sum,
    rotated, rotation_matches,
};
use crate::primitives::sum::{
    lemma_sum_bounds, lemma_sum_chunks, lemma_sum_ext, lemma_sum_rotate, lemma_sum_split, lemma_sum_sub_double,
    lemma_sum_swap, lemma_sum_zero, sum,
};
use crate::primitives::poly::conf::PolyConf;
use crate::primitives::poly::Poly;

verus! {

/// The sign a bit contributes to an inner product: `0` when masked, `-1` when set, `1` when unset.
pub open spec fn bit_sign(visible: bool, set: bool) -> int {
    if !visible {
        0
    } else if set {
        -1
    } else {
        1
    }
}

/// A block coefficient read as a sign: `q - 1` is `-1`.
pub open spec fn signed_coeff(c: int, q: int) -> int {
    if c == q - 1 {
        -1
    } else {
        c
    }
}

/// The first `len` coefficients of a block encoding, read as signs.
pub open spec fn signed_block<C: EncodeConf>(value: Seq<bool>, mask: Seq<bool>, first_row: int, storage: bool, len: nat) -> Seq<int> {
    let d = num_cols_and_pads::<C>() as int;
    Seq::new(
        len,
        |i: int| signed_coeff(block_bit::<C>(value, mask, first_row, storage, i / d, i % d), C::PlainConf::spec_modulus()),
    )
}

/// The same bits, all unset: what a mask polynomial encodes.
pub open spec fn unset_bits(len: nat) -> Seq<bool> {
    Seq::new(len, |i: int| false)
}

/// A row and position of a block, as an index of its coefficient.
proof fn lemma_block_position(d: int, i: int)
    requires
        d > 0,
        i >= 0,
    ensures
        i == block_index(d, i / d, i % d),
        0 <= i % d < d,
        i / d >= 0,
{
    lemma_fundamental_div_mod(i, d);
    lemma_mod_bound(i, d);
    lemma_div_pos_is_pos(i, d);
}

/// The row of an index below `rows * d` is below `rows`.
proof fn lemma_block_row_bound(d: int, rows: int, i: int)
    requires
        d > 0,
        0 <= i < rows * d,
    ensures
        i / d < rows,
{
    lemma_fundamental_div_mod(i, d);
    lemma_mod_bound(i, d);
    let x = i / d;
    assert(x < rows) by (nonlinear_arith)
        requires d > 0, i == d * x + i % d, i % d >= 0, i < rows * d;
}

/// Reading back the row and position of a coefficient index.
proof fn lemma_block_index_parts(d: int, m: int, p: int)
    requires
        d > 0,
        m >= 0,
        0 <= p < d,
    ensures
        block_index(d, m, p) / d == m,
        block_index(d, m, p) % d == p,
{
    lemma_mul_is_commutative(d, m);
    lemma_fundamental_div_mod_converse(d * m + p, d, m, p);
}

/// A mask polynomial encodes the visibility of each bit: the block with every bit unset.
pub proof fn lemma_mask_encodes<C: EncodeConf>(p: Poly<C::PlainConf>, mp: Poly<C::PlainConf>, value: Seq<bool>, mask: Seq<bool>, first_row: int, storage: bool)
    requires
        encodes_block::<C>(p, value, mask, first_row, storage),
        is_mask_of(mp, p),
        value.len() == data_bit_len::<C::EyeConf>(),
        0 <= first_row,
        first_row + C::spec_rows_per_block() <= C::EyeConf::spec_column_len(),
    ensures
        encodes_block::<C>(mp, unset_bits(value.len()), mask, first_row, storage),
{
    C::PlainConf::lemma_conf_valid();
    C::EyeConf::lemma_iris_conf_valid();
    let d = num_cols_and_pads::<C>() as int;
    let s = C::spec_rows_per_block() as int;
    let k = C::EyeConf::spec_columns() as int;
    let len = C::EyeConf::spec_column_len() as int;
    let vz = unset_bits(value.len());
    assert forall|m: int, i: int|
        0 <= m < s && 0 <= i < d implies #[trigger] mp.coeff(block_index(d, m, i)) == block_bit::<C>(vz, mask, first_row, storage, m, i) by {
        assert(p.coeff(block_index(d, m, i)) == block_bit::<C>(value, mask, first_row, storage, m, i));
        let row = if storage { first_row + s - 1 - m } else { first_row + m };
        let col = if storage { k - 1 - i } else { (i - C::EyeConf::spec_rotation_limit()) % k };
        if !storage || i < k {
            lemma_mod_bound(i - C::EyeConf::spec_rotation_limit(), k);
            assert(0 <= col * len + row < len * k) by (nonlinear_arith)
                requires 0 <= col < k, 0 <= row < len;
            assert(vz[col * len + row] == false);
        }
        assert(mp.coeff(block_index(d, m, i)) == if p.coeff(block_index(d, m, i)) == 0 { 0int } else { 1int });
    }
    assert forall|idx: int| idx >= s * d implies #[trigger] mp.coeff(idx) == 0 by {
        assert(p.coeff(idx) == 0);
        assert(mp.coeff(idx) == if p.coeff(idx) == 0 { 0int } else { 1int });
    }
}


/// An encoded bit is congruent to its sign.
proof fn lemma_signed_coeff_cong(c: int, q: int)
    requires
        q > 2,
        c == 0 || c == 1 || c == q - 1,
    ensures
        c % q == signed_coeff(c, q) % q,
{
    if c == q - 1 {
        lemma_small_mod((q - 1) as nat, q as nat);
        lemma_mod_add_multiples_vanish(-1, q);
    } else {
        lemma_small_mod(c as nat, q as nat);
    }
}

/// Every coefficient of a block encoding is `0`, `1` or `q - 1`.
proof fn lemma_block_bit_values<C: EncodeConf>(value: Seq<bool>, mask: Seq<bool>, first_row: int, storage: bool, m: int, i: int)
    ensures
        block_bit::<C>(value, mask, first_row, storage, m, i) == 0
            || block_bit::<C>(value, mask, first_row, storage, m, i) == 1
            || block_bit::<C>(value, mask, first_row, storage, m, i) == C::PlainConf::spec_modulus() - 1,
{
}

/// Every coefficient of a block encoding, at any index, is `0`, `1` or `q - 1`.
pub proof fn lemma_block_coeff_values<C: EncodeConf>(p: Poly<C::PlainConf>, value: Seq<bool>, mask: Seq<bool>, first_row: int, storage: bool)
    requires
        encodes_block::<C>(p, value, mask, first_row, storage),
    ensures
        forall|i: int|
            #![trigger p.coeff(i)]
            p.coeff(i) == 0 || p.coeff(i) == 1 || p.coeff(i) == C::PlainConf::spec_modulus() - 1,
{
    C::EyeConf::lemma_iris_conf_valid();
    C::lemma_encode_conf_valid();
    let d = num_cols_and_pads::<C>() as int;
    let s = C::spec_rows_per_block() as int;
    assert forall|i: int|
        #![trigger p.coeff(i)]
        p.coeff(i) == 0 || p.coeff(i) == 1 || p.coeff(i) == C::PlainConf::spec_modulus() - 1 by {
        if 0 <= i < s * d {
            lemma_block_position(d, i);
            lemma_block_row_bound(d, s, i);
            assert(p.coeff(block_index(d, i / d, i % d)) == block_bit::<C>(value, mask, first_row, storage, i / d, i % d));
            lemma_block_bit_values::<C>(value, mask, first_row, storage, i / d, i % d);
        } else if i >= s * d {
            assert(p.coeff(i) == 0);
        }
    }
}

/// The length of the signed sequence of a block: every row for the query, and up to the last
/// column of the last row for the stored code.
pub open spec fn signed_len<C: EncodeConf>(storage: bool) -> nat {
    let d = num_cols_and_pads::<C>();
    let s = C::spec_rows_per_block();
    if storage {
        ((s - 1) * d + C::EyeConf::spec_columns()) as nat
    } else {
        s * d
    }
}

/// A block encoding is congruent to its signed sequence.
proof fn lemma_signed_cong<C: EncodeConf>(p: Poly<C::PlainConf>, value: Seq<bool>, mask: Seq<bool>, first_row: int, storage: bool)
    requires
        encodes_block::<C>(p, value, mask, first_row, storage),
    ensures
        cong(p.ints(), signed_block::<C>(value, mask, first_row, storage, signed_len::<C>(storage)), C::PlainConf::spec_modulus()),
{
    C::PlainConf::lemma_conf_valid();
    C::EyeConf::lemma_iris_conf_valid();
    C::lemma_encode_conf_valid();
    let d = num_cols_and_pads::<C>() as int;
    let s = C::spec_rows_per_block() as int;
    let k = C::EyeConf::spec_columns() as int;
    let q = C::PlainConf::spec_modulus();
    let len = signed_len::<C>(storage);
    let sb = signed_block::<C>(value, mask, first_row, storage, len);
    assert(len <= s * d) by (nonlinear_arith)
        requires
            len == if storage { (s - 1) * d + k } else { s * d },
            k <= d,
            s >= 1;
    assert forall|i: int| #[trigger] get(p.ints(), i) % q == #[trigger] get(sb, i) % q by {
        if 0 <= i < s * d {
            lemma_block_position(d, i);
            lemma_block_row_bound(d, s, i);
            let m = i / d;
            let pp = i % d;
            assert(p.coeff(block_index(d, m, pp)) == block_bit::<C>(value, mask, first_row, storage, m, pp));
            lemma_block_bit_values::<C>(value, mask, first_row, storage, m, pp);
            if i < len {
                lemma_signed_coeff_cong(block_bit::<C>(value, mask, first_row, storage, m, pp), q);
            } else {
                assert(storage);
                if m < s - 1 {
                    lemma_mul_inequality(m + 1, s - 1, d);
                    assert(d * m + d == (m + 1) * d) by (nonlinear_arith);
                    assert(false);
                }
                assert(pp >= k) by (nonlinear_arith)
                    requires i == d * m + pp, m == s - 1, i >= (s - 1) * d + k, m < s;
                lemma_small_mod(0, q as nat);
            }
        } else if i >= s * d {
            assert(p.coeff(i) == 0);
            lemma_small_mod(0, q as nat);
        }
    }
}


/// The product coefficient for rotation number `r` is, modulo `q`, the convolution of the signed
/// query and code blocks.
proof fn lemma_product_coeff<C: EncodeConf>(
    a: Poly<C::PlainConf>,
    b: Poly<C::PlainConf>,
    value_new: Seq<bool>,
    mask_new: Seq<bool>,
    value_store: Seq<bool>,
    mask_store: Seq<bool>,
    first_row: int,
    r: int,
)
    requires
        encodes_block::<C>(a, value_new, mask_new, first_row, false),
        encodes_block::<C>(b, value_store, mask_store, first_row, true),
        0 <= r < rotation_comparisons::<C::EyeConf>(),
    ensures
        get(block_product::<C>(a, b), inner_product_index::<C>(r)) == conv(
            signed_block::<C>(value_new, mask_new, first_row, false, signed_len::<C>(false)),
            signed_block::<C>(value_store, mask_store, first_row, true, signed_len::<C>(true)),
            inner_product_index::<C>(r),
        ) % C::PlainConf::spec_modulus(),
{
    C::PlainConf::lemma_conf_valid();
    C::EyeConf::lemma_iris_conf_valid();
    C::lemma_encode_conf_valid();
    let d = num_cols_and_pads::<C>() as int;
    let s = C::spec_rows_per_block() as int;
    let k = C::EyeConf::spec_columns() as int;
    let q = C::PlainConf::spec_modulus();
    let n = C::PlainConf::spec_max_poly_degree();
    let sq = signed_block::<C>(value_new, mask_new, first_row, false, signed_len::<C>(false));
    let sc = signed_block::<C>(value_store, mask_store, first_row, true, signed_len::<C>(true));
    let idx = inner_product_index::<C>(r);
    lemma_signed_cong::<C>(a, value_new, mask_new, first_row, false);
    lemma_signed_cong::<C>(b, value_store, mask_store, first_row, true);
    let p = conv_seq(a.ints(), b.ints());
    let p2 = conv_seq(sq, sc).take(sq.len() + sc.len() - 1);
    assert(sq.len() + sc.len() - 1 == 2 * (s * d) - rotation_comparisons::<C::EyeConf>()) by (nonlinear_arith)
        requires
            sq.len() == s * d,
            sc.len() == (s - 1) * d + k,
            d == k + 2 * C::EyeConf::spec_rotation_limit(),
            rotation_comparisons::<C::EyeConf>() == 2 * C::EyeConf::spec_rotation_limit() + 1;
    assert forall|i: int| #[trigger] get(p2, i) == conv(sq, sc, i) by {
        if !(0 <= i < sq.len() + sc.len() - 1) {
            lemma_conv_outside(sq, sc, i, sq.len());
        }
    }
    assert forall|i: int| #[trigger] get(p, i) % q == #[trigger] get(p2, i) % q by {
        lemma_get_conv_seq(a.ints(), b.ints(), i);
        lemma_conv_cong(a.ints(), sq, b.ints(), sc, q, i);
    }
    lemma_ring_seq_cong(p, p2, n, q);
    lemma_mul_is_commutative(s, d);
    assert(s * d <= n);
    assert(rotation_comparisons::<C::EyeConf>() <= s * d) by (nonlinear_arith)
        requires rotation_comparisons::<C::EyeConf>() <= d, s >= 1;
    assert(0 <= idx < n);
    assert(idx + n >= p2.len());
    lemma_fold_zero_tail(p2, n as int, idx + n, p2.len() as int);
    assert(fold_upto(p2, n as int, idx, p2.len() as int) == get(p2, idx));
    assert(ring_seq(p2, n, q)[idx] == get(p2, idx) % q);
}


/// The product of the signs of a bit of the new code, in column `(j + rotation) mod k`, and the
/// bit of the stored code in column `j`, both in row `row`.
pub open spec fn pair_term<C: EncodeConf>(
    value_new: Seq<bool>,
    mask_new: Seq<bool>,
    value_store: Seq<bool>,
    mask_store: Seq<bool>,
    row: int,
    j: int,
    rotation: int,
) -> int {
    let k = C::EyeConf::spec_columns() as int;
    let len = C::EyeConf::spec_column_len() as int;
    let new_bit = ((j + rotation) % k) * len + row;
    let store_bit = j * len + row;
    bit_sign(mask_new[new_bit], value_new[new_bit]) * bit_sign(mask_store[store_bit], value_store[store_bit])
}

/// The sign of the stored code at row `m`, position `p` of its block.
proof fn lemma_code_sign<C: EncodeConf>(value: Seq<bool>, mask: Seq<bool>, first_row: int, m: int, p: int)
    requires
        0 <= m < C::spec_rows_per_block(),
        0 <= p < num_cols_and_pads::<C>(),
    ensures
        get(signed_block::<C>(value, mask, first_row, true, signed_len::<C>(true)), block_index(num_cols_and_pads::<C>() as int, m, p))
            == if p < C::EyeConf::spec_columns() {
            signed_coeff(block_bit::<C>(value, mask, first_row, true, m, p), C::PlainConf::spec_modulus())
        } else {
            0
        },
{
    C::PlainConf::lemma_conf_valid();
    C::EyeConf::lemma_iris_conf_valid();
    let d = num_cols_and_pads::<C>() as int;
    let s = C::spec_rows_per_block() as int;
    let k = C::EyeConf::spec_columns() as int;
    let idx = block_index(d, m, p);
    lemma_block_index_parts(d, m, p);
    let sc = signed_block::<C>(value, mask, first_row, true, signed_len::<C>(true));
    if idx < sc.len() {
        assert(sc[idx] == signed_coeff(block_bit::<C>(value, mask, first_row, true, m, p), C::PlainConf::spec_modulus()));
    } else {
        // Past the last column of the last row.
        C::lemma_encode_conf_valid();
        if m < s - 1 {
            lemma_mul_inequality(m + 1, s - 1, d);
            assert(d * m + d == (m + 1) * d) by (nonlinear_arith);
            assert(false);
        }
        assert(d * m == (s - 1) * d) by (nonlinear_arith)
            requires m == s - 1;
        assert(p >= k);
    }
}

/// One row of the convolution sum: only the positions that pair up a stored column with a
/// query column contribute.
proof fn lemma_row_sum<C: EncodeConf>(
    value_new: Seq<bool>,
    mask_new: Seq<bool>,
    value_store: Seq<bool>,
    mask_store: Seq<bool>,
    first_row: int,
    r: int,
    m: int,
)
    requires
        0 <= r < rotation_comparisons::<C::EyeConf>(),
        0 <= m < C::spec_rows_per_block(),
    ensures
        ({
            let d = num_cols_and_pads::<C>() as int;
            let sq = signed_block::<C>(value_new, mask_new, first_row, false, signed_len::<C>(false));
            let sc = signed_block::<C>(value_store, mask_store, first_row, true, signed_len::<C>(true));
            let idx = inner_product_index::<C>(r);
            sum(|p: int| get(sq, m * d + p) * get(sc, idx - (m * d + p)), d as nat) == sum(
                |j: int| pair_term::<C>(value_new, mask_new, value_store, mask_store, first_row + m, j, r - C::EyeConf::spec_rotation_limit()),
                C::EyeConf::spec_columns(),
            )
        }),
{
    C::PlainConf::lemma_conf_valid();
    C::EyeConf::lemma_iris_conf_valid();
    C::lemma_encode_conf_valid();
    let d = num_cols_and_pads::<C>() as int;
    let s = C::spec_rows_per_block() as int;
    let k = C::EyeConf::spec_columns() as int;
    let v = C::EyeConf::spec_rotation_limit() as int;
    let q = C::PlainConf::spec_modulus();
    let sq = signed_block::<C>(value_new, mask_new, first_row, false, signed_len::<C>(false));
    let sc = signed_block::<C>(value_store, mask_store, first_row, true, signed_len::<C>(true));
    let idx = inner_product_index::<C>(r);
    let g = |p: int| get(sq, m * d + p) * get(sc, idx - (m * d + p));
    assert(idx == s * d - 2 * v - 1 + r);
    // Each term: the query sign at position `p` and the code sign at position `k - 1 + r - p` of
    // the mirrored row.
    assert forall|p: int| 0 <= p < d implies #[trigger] g(p) == (if r <= p < r + k {
        pair_term::<C>(value_new, mask_new, value_store, mask_store, first_row + m, p - r, r - v)
    } else {
        0
    }) by {
        lemma_mul_is_commutative(m, d);
        lemma_block_index_parts(d, m, p);
        assert(m * d + p < s * d) by (nonlinear_arith)
            requires 0 <= m < s, 0 <= p < d;
        assert(get(sq, m * d + p) == signed_coeff(block_bit::<C>(value_new, mask_new, first_row, false, m, p), q));
        let pos = k - 1 + r - p;
        assert(idx - (m * d + p) == (s - 1 - m) * d + pos) by (nonlinear_arith)
            requires idx == s * d - 2 * v - 1 + r, d == k + 2 * v, pos == k - 1 + r - p;
        if r <= p < r + k {
            lemma_code_sign::<C>(value_store, mask_store, first_row, s - 1 - m, pos);
            assert(block_index(d, s - 1 - m, pos) == (s - 1 - m) * d + pos) by (nonlinear_arith);
            let j = p - r;
            let len = C::EyeConf::spec_column_len() as int;
            let qcol = (p - v) % k;
            assert(qcol == (j + (r - v)) % k);
        } else if p < r {
            lemma_code_sign::<C>(value_store, mask_store, first_row, s - 1 - m, pos);
            assert(block_index(d, s - 1 - m, pos) == (s - 1 - m) * d + pos) by (nonlinear_arith);
        } else if m < s - 1 {
            lemma_code_sign::<C>(value_store, mask_store, first_row, s - 2 - m, d + pos);
            assert(block_index(d, s - 2 - m, d + pos) == (s - 1 - m) * d + pos) by (nonlinear_arith);
        } else {
            assert((s - 1 - m) * d == 0) by (nonlinear_arith)
                requires s - 1 - m == 0;
        }
    }
    let mid = |i: int| g(r + i);
    let rest = |i: int| mid(k + i);
    lemma_sum_split(g, r as nat, (d - r) as nat);
    lemma_sum_split(mid, k as nat, (d - r - k) as nat);
    lemma_sum_zero(g, r as nat);
    assert forall|i: int| 0 <= i < d - r - k implies #[trigger] rest(i) == 0 by {
        assert(g(r + (k + i)) == 0);
    }
    lemma_sum_ext(|i: int| mid(k as nat + i), rest, (d - r - k) as nat);
    lemma_sum_zero(rest, (d - r - k) as nat);
    assert forall|j: int| 0 <= j < k implies #[trigger] mid(j) == pair_term::<C>(value_new, mask_new, value_store, mask_store, first_row + m, j, r - v) by {
        assert(g(r + j) == pair_term::<C>(value_new, mask_new, value_store, mask_store, first_row + m, (r + j) - r, r - v));
    }
    lemma_sum_ext(|i: int| g(r as nat + i), mid, (d - r) as nat);
    lemma_sum_ext(mid, |j: int| pair_term::<C>(value_new, mask_new, value_store, mask_store, first_row + m, j, r - v), k as nat);
    assert((r as nat + (d - r) as nat) == d as nat);
    assert((k as nat + (d - r - k) as nat) == (d - r) as nat);
}


/// The sum of the sign products of a block, for rotation number `r`: `#equal - #different`
/// over its rows, when the stored code is rotated by `r - v` columns.
pub open spec fn block_sum<C: EncodeConf>(
    value_new: Seq<bool>,
    mask_new: Seq<bool>,
    value_store: Seq<bool>,
    mask_store: Seq<bool>,
    first_row: int,
    r: int,
) -> int {
    sum(
        |m: int|
            sum(
                |j: int| pair_term::<C>(value_new, mask_new, value_store, mask_store, first_row + m, j, r - C::EyeConf::spec_rotation_limit()),
                C::EyeConf::spec_columns(),
            ),
        C::spec_rows_per_block(),
    )
}

/// The product coefficient for rotation number `r` is the block sum, modulo `q`.
proof fn lemma_block_value<C: EncodeConf>(
    a: Poly<C::PlainConf>,
    b: Poly<C::PlainConf>,
    value_new: Seq<bool>,
    mask_new: Seq<bool>,
    value_store: Seq<bool>,
    mask_store: Seq<bool>,
    first_row: int,
    r: int,
)
    requires
        encodes_block::<C>(a, value_new, mask_new, first_row, false),
        encodes_block::<C>(b, value_store, mask_store, first_row, true),
        0 <= r < rotation_comparisons::<C::EyeConf>(),
    ensures
        get(block_product::<C>(a, b), inner_product_index::<C>(r))
            == block_sum::<C>(value_new, mask_new, value_store, mask_store, first_row, r) % C::PlainConf::spec_modulus(),
{
    C::lemma_encode_conf_valid();
    let d = num_cols_and_pads::<C>() as int;
    let s = C::spec_rows_per_block() as int;
    let v = C::EyeConf::spec_rotation_limit() as int;
    let sq = signed_block::<C>(value_new, mask_new, first_row, false, signed_len::<C>(false));
    let sc = signed_block::<C>(value_store, mask_store, first_row, true, signed_len::<C>(true));
    let idx = inner_product_index::<C>(r);
    lemma_product_coeff::<C>(a, b, value_new, mask_new, value_store, mask_store, first_row, r);
    let f = |i: int| get(sq, i) * get(sc, idx - i);
    lemma_conv_upto_sum(sq, sc, idx, sq.len());
    lemma_sum_chunks(f, s as nat, d as nat);
    let rows = |x: int| sum(|y: int| f(x * d + y), d as nat);
    let pairs = |m: int|
        sum(
            |j: int| pair_term::<C>(value_new, mask_new, value_store, mask_store, first_row + m, j, r - v),
            C::EyeConf::spec_columns(),
        );
    assert forall|m: int| 0 <= m < s implies #[trigger] rows(m) == pairs(m) by {
        lemma_row_sum::<C>(value_new, mask_new, value_store, mask_store, first_row, r, m);
        lemma_sum_ext(|y: int| f(m * d + y), |p: int| get(sq, m * d + p) * get(sc, idx - (m * d + p)), d as nat);
    }
    lemma_sum_ext(rows, pairs, s as nat);
}

/// A sign product is `-1`, `0` or `1`.
proof fn lemma_pair_term_range<C: EncodeConf>(
    value_new: Seq<bool>,
    mask_new: Seq<bool>,
    value_store: Seq<bool>,
    mask_store: Seq<bool>,
    row: int,
    j: int,
    rotation: int,
)
    ensures
        -1 <= pair_term::<C>(value_new, mask_new, value_store, mask_store, row, j, rotation) <= 1,
{
    let k = C::EyeConf::spec_columns() as int;
    let len = C::EyeConf::spec_column_len() as int;
    let new_bit = ((j + rotation) % k) * len + row;
    let store_bit = j * len + row;
    let x = bit_sign(mask_new[new_bit], value_new[new_bit]);
    let y = bit_sign(mask_store[store_bit], value_store[store_bit]);
    assert(-1 <= x * y <= 1) by (nonlinear_arith)
        requires -1 <= x <= 1, -1 <= y <= 1;
}

/// A block sum lies between `-s k` and `s k`.
proof fn lemma_block_sum_range<C: EncodeConf>(
    value_new: Seq<bool>,
    mask_new: Seq<bool>,
    value_store: Seq<bool>,
    mask_store: Seq<bool>,
    first_row: int,
    r: int,
)
    ensures
        -(C::spec_rows_per_block() * C::EyeConf::spec_columns()) <= block_sum::<C>(value_new, mask_new, value_store, mask_store, first_row, r)
            <= C::spec_rows_per_block() * C::EyeConf::spec_columns(),
{
    let k = C::EyeConf::spec_columns();
    let s = C::spec_rows_per_block();
    let v = C::EyeConf::spec_rotation_limit() as int;
    let pairs = |m: int|
        sum(|j: int| pair_term::<C>(value_new, mask_new, value_store, mask_store, first_row + m, j, r - v), k);
    assert forall|m: int| 0 <= m < s implies -(k as int) <= #[trigger] pairs(m) <= k by {
        let t = |j: int| pair_term::<C>(value_new, mask_new, value_store, mask_store, first_row + m, j, r - v);
        assert forall|j: int| 0 <= j < k implies -1 <= #[trigger] t(j) <= 1 by {
            lemma_pair_term_range::<C>(value_new, mask_new, value_store, mask_store, first_row + m, j, r - v);
        }
        lemma_sum_bounds(t, k, -1, 1);
    }
    lemma_sum_bounds(pairs, s, -(k as int), k as int);
    assert(s * (-(k as int)) == -(s * k)) by (nonlinear_arith);
}

/// With a modulus above the data length plus the bits of a block, each block's count reads back
/// as its block sum.
proof fn lemma_block_count<C: EncodeConf>(
    query: Seq<Poly<C::PlainConf>>,
    code: Seq<Poly<C::PlainConf>>,
    value_new: Seq<bool>,
    mask_new: Seq<bool>,
    value_store: Seq<bool>,
    mask_store: Seq<bool>,
    blk: int,
    r: int,
)
    requires
        encodes_block::<C>(query[blk], value_new, mask_new, blk * C::spec_rows_per_block(), false),
        encodes_block::<C>(code[blk], value_store, mask_store, blk * C::spec_rows_per_block(), true),
        0 <= r < rotation_comparisons::<C::EyeConf>(),
        C::PlainConf::spec_modulus() > data_bit_len::<C::EyeConf>() + C::spec_rows_per_block() * C::EyeConf::spec_columns(),
    ensures
        block_count::<C>(query, code, blk, r) == Some(
            block_sum::<C>(value_new, mask_new, value_store, mask_store, blk * C::spec_rows_per_block(), r),
        ),
{
    C::PlainConf::lemma_conf_valid();
    let q = C::PlainConf::spec_modulus();
    let sk = C::spec_rows_per_block() * C::EyeConf::spec_columns();
    let e = block_sum::<C>(value_new, mask_new, value_store, mask_store, blk * C::spec_rows_per_block(), r);
    lemma_block_value::<C>(query[blk], code[blk], value_new, mask_new, value_store, mask_store, blk * C::spec_rows_per_block(), r);
    lemma_block_sum_range::<C>(value_new, mask_new, value_store, mask_store, blk * C::spec_rows_per_block(), r);
    C::lemma_encode_conf_valid();
    C::EyeConf::lemma_iris_conf_valid();
    let s = C::spec_rows_per_block();
    let len = C::EyeConf::spec_column_len();
    let k = C::EyeConf::spec_columns();
    if s > len {
        assert(len / s == 0) by {
            lemma_basic_div(len as int, s as int);
        }
        assert(false) by (nonlinear_arith)
            requires (len / s) * s == len, len / s == 0, len >= 1;
    }
    assert(sk <= data_bit_len::<C::EyeConf>()) by (nonlinear_arith)
        requires sk == s * k, s <= len, data_bit_len::<C::EyeConf>() == len * k;
    assert(data_bit_len::<C::EyeConf>() <= 0x10_0000) by (nonlinear_arith)
        requires data_bit_len::<C::EyeConf>() == len * k, k * len <= 0x10_0000;
    if e >= 0 {
        lemma_small_mod(e as nat, q as nat);
    } else {
        lemma_mod_add_multiples_vanish(e, q);
        lemma_small_mod((e + q) as nat, q as nat);
    }
}


/// `x` rotated by `rot` columns lands in column `(c - rot) mod k` of the same row.
proof fn lemma_rotated_index(k: int, len: int, c: int, row: int, rot: int)
    requires
        k > 0,
        len > 0,
        0 <= c < k,
        0 <= row < len,
    ensures
        ((c * len + row) - rot * len) % (len * k) == ((c - rot) % k) * len + row,
        0 <= ((c - rot) % k) * len + row < len * k,
{
    let cr = (c - rot) % k;
    let t = (c - rot) / k;
    lemma_fundamental_div_mod(c - rot, k);
    lemma_mod_bound(c - rot, k);
    assert(0 <= cr * len + row < len * k) by (nonlinear_arith)
        requires 0 <= cr < k, 0 <= row < len;
    assert((c * len + row) - rot * len == t * (len * k) + (cr * len + row)) by (nonlinear_arith)
        requires c - rot == k * t + cr;
    lemma_fundamental_div_mod_converse((c * len + row) - rot * len, len * k, t, cr * len + row);
}

/// A sum over the bits of a code and the bits of a rotated code, regrouped by rows and columns:
/// column `c` of the new code meets column `(c - rot) mod k` of the stored code, which is, column
/// by column of the stored code, column `j` against column `(j + rot) mod k`.
proof fn lemma_regroup<C: EncodeConf>(p: spec_fn(int, int) -> int, rot: int)
    ensures
        sum(
            |i: int| p(i, (i - rot * C::EyeConf::spec_column_len()) % (data_bit_len::<C::EyeConf>() as int)),
            data_bit_len::<C::EyeConf>(),
        ) == sum(
            |row: int|
                sum(
                    |j: int|
                        p(
                            ((j + rot) % (C::EyeConf::spec_columns() as int)) * C::EyeConf::spec_column_len() + row,
                            j * C::EyeConf::spec_column_len() + row,
                        ),
                    C::EyeConf::spec_columns(),
                ),
            C::EyeConf::spec_column_len(),
        ),
{
    C::EyeConf::lemma_iris_conf_valid();
    let k = C::EyeConf::spec_columns() as int;
    let len = C::EyeConf::spec_column_len() as int;
    let n = data_bit_len::<C::EyeConf>() as int;
    let f = |i: int| p(i, (i - rot * len) % n);
    lemma_mul_is_commutative(k, len);
    assert(n == len * k);
    lemma_sum_chunks(f, k as nat, len as nat);
    let hh = |x: int, y: int| f(x * len + y);
    let outer1 = |x: int| sum(|y: int| f(x * len + y), len as nat);
    let outer2 = |x: int| sum(|y: int| hh(x, y), len as nat);
    assert forall|x: int| 0 <= x < k implies #[trigger] outer1(x) == outer2(x) by {
        lemma_sum_ext(|y: int| f(x * len + y), |y: int| hh(x, y), len as nat);
    }
    lemma_sum_ext(outer1, outer2, k as nat);
    lemma_sum_swap(hh, k as nat, len as nat);
    let by_col = |row: int| sum(|x: int| hh(x, row), k as nat);
    let target = |row: int|
        sum(|j: int| p(((j + rot) % k) * len + row, j * len + row), k as nat);
    assert forall|row: int| 0 <= row < len implies #[trigger] by_col(row) == target(row) by {
        let col_f = |x: int| hh(x, row);
        lemma_sum_rotate(col_f, k as nat, rot);
        assert forall|j: int| 0 <= j < k implies #[trigger] col_f((j + rot) % k) == p(((j + rot) % k) * len + row, j * len + row) by {
            let c = (j + rot) % k;
            lemma_mod_bound(j + rot, k);
            lemma_rotated_index(k, len, c, row, rot);
            lemma_sub_mod_noop(j + rot, rot, k);
            lemma_sub_mod_noop(c, rot, k);
            lemma_mod_twice(j + rot, k);
            lemma_small_mod(j as nat, k as nat);
            assert((c - rot) % k == j);
        }
        lemma_sum_ext(
            |j: int| col_f((j + rot) % k),
            |j: int| p(((j + rot) % k) * len + row, j * len + row),
            k as nat,
        );
        lemma_sum_ext(col_f, |x: int| hh(x, row), k as nat);
    }
    lemma_sum_ext(|y: int| sum(|x: int| hh(x, y), k as nat), target, len as nat);
}

/// `1` when the pair of bits is visible in both codes.
pub open spec fn pair_unmasked<C: EncodeConf>(mask_new: Seq<bool>, mask_store: Seq<bool>, row: int, j: int, rotation: int) -> int {
    let k = C::EyeConf::spec_columns() as int;
    let len = C::EyeConf::spec_column_len() as int;
    let new_bit = ((j + rotation) % k) * len + row;
    let store_bit = j * len + row;
    if mask_new[new_bit] && mask_store[store_bit] {
        1
    } else {
        0
    }
}

/// `1` when the pair of bits is visible in both codes and differs.
pub open spec fn pair_differs<C: EncodeConf>(
    value_new: Seq<bool>,
    mask_new: Seq<bool>,
    value_store: Seq<bool>,
    mask_store: Seq<bool>,
    row: int,
    j: int,
    rotation: int,
) -> int {
    let k = C::EyeConf::spec_columns() as int;
    let len = C::EyeConf::spec_column_len() as int;
    let new_bit = ((j + rotation) % k) * len + row;
    let store_bit = j * len + row;
    if mask_new[new_bit] && mask_store[store_bit] && value_new[new_bit] != value_store[store_bit] {
        1
    } else {
        0
    }
}

/// A per-pair quantity summed over every row and column.
pub open spec fn grid_sum<C: EncodeConf>(t: spec_fn(int, int) -> int) -> int {
    sum(|row: int| sum(|j: int| t(row, j), C::EyeConf::spec_columns()), C::EyeConf::spec_column_len())
}

/// The counts of all blocks add up to the grid sum of the sign products.
proof fn lemma_count_sum_grid<C: EncodeConf>(
    query: Seq<Poly<C::PlainConf>>,
    code: Seq<Poly<C::PlainConf>>,
    value_new: Seq<bool>,
    mask_new: Seq<bool>,
    value_store: Seq<bool>,
    mask_store: Seq<bool>,
    r: int,
)
    requires
        query.len() == num_blocks::<C>(),
        code.len() == num_blocks::<C>(),
        forall|b: int| 0 <= b < num_blocks::<C>() ==>
            encodes_block::<C>(#[trigger] query[b], value_new, mask_new, b * C::spec_rows_per_block(), false),
        forall|b: int| 0 <= b < num_blocks::<C>() ==>
            encodes_block::<C>(#[trigger] code[b], value_store, mask_store, b * C::spec_rows_per_block(), true),
        0 <= r < rotation_comparisons::<C::EyeConf>(),
        C::PlainConf::spec_modulus() > data_bit_len::<C::EyeConf>() + C::spec_rows_per_block() * C::EyeConf::spec_columns(),
    ensures
        forall|b: int| 0 <= b < num_blocks::<C>() ==> #[trigger] block_count::<C>(query, code, b, r) is Some,
        count_sum::<C>(query, code, r, num_blocks::<C>()) == grid_sum::<C>(
            |row: int, j: int| pair_term::<C>(value_new, mask_new, value_store, mask_store, row, j, r - C::EyeConf::spec_rotation_limit()),
        ),
{
    C::lemma_encode_conf_valid();
    let s = C::spec_rows_per_block();
    let k = C::EyeConf::spec_columns();
    let nb = num_blocks::<C>();
    let rho = r - C::EyeConf::spec_rotation_limit();
    let per_block = |b: int| block_sum::<C>(value_new, mask_new, value_store, mask_store, b * s, r);
    assert forall|b: int| 0 <= b < nb implies #[trigger] block_count::<C>(query, code, b, r) == Some(per_block(b)) by {
        lemma_block_count::<C>(query, code, value_new, mask_new, value_store, mask_store, b, r);
    }
    lemma_count_sum_blocks::<C>(query, code, per_block, r, nb);
    let row_sum = |row: int| sum(|j: int| pair_term::<C>(value_new, mask_new, value_store, mask_store, row, j, rho), k);
    lemma_sum_chunks(row_sum, nb, s);
    let chunked = |x: int| sum(|y: int| row_sum(x * s + y), s);
    assert forall|x: int| 0 <= x < nb implies #[trigger] per_block(x) == chunked(x) by {
        let inner = |m: int| sum(|j: int| pair_term::<C>(value_new, mask_new, value_store, mask_store, x * s + m, j, rho), k);
        lemma_sum_ext(inner, |y: int| row_sum(x * s + y), s);
    }
    lemma_sum_ext(per_block, chunked, nb);
    assert(nb * s == C::EyeConf::spec_column_len());
    let t = |row: int, j: int| pair_term::<C>(value_new, mask_new, value_store, mask_store, row, j, rho);
    assert forall|row: int| 0 <= row < C::EyeConf::spec_column_len() implies #[trigger] row_sum(row) == sum(|j: int| t(row, j), k) by {
        lemma_sum_ext(|j: int| pair_term::<C>(value_new, mask_new, value_store, mask_store, row, j, rho), |j: int| t(row, j), k);
    }
    lemma_sum_ext(row_sum, |row: int| sum(|j: int| t(row, j), k), C::EyeConf::spec_column_len());
}

/// Summing the counts block by block.
proof fn lemma_count_sum_blocks<C: EncodeConf>(
    query: Seq<Poly<C::PlainConf>>,
    code: Seq<Poly<C::PlainConf>>,
    per_block: spec_fn(int) -> int,
    r: int,
    upto: nat,
)
    requires
        forall|b: int| 0 <= b < upto ==> #[trigger] block_count::<C>(query, code, b, r) == Some(per_block(b)),
    ensures
        count_sum::<C>(query, code, r, upto) == sum(per_block, upto),
    decreases upto,
{
    if upto > 0 {
        lemma_count_sum_blocks::<C>(query, code, per_block, r, (upto - 1) as nat);
        assert(block_count::<C>(query, code, upto - 1, r) == Some(per_block(upto - 1)));
    }
}

/// The grid sum of a rotated pair quantity, as a sum over the bits of the new code.
proof fn lemma_grid_sum_bits<C: EncodeConf>(p: spec_fn(int, int) -> int, t: spec_fn(int, int) -> int, rot: int)
    requires
        forall|row: int, j: int|
            0 <= row < C::EyeConf::spec_column_len() && 0 <= j < C::EyeConf::spec_columns() ==> #[trigger] t(row, j) == p(
                ((j + rot) % (C::EyeConf::spec_columns() as int)) * C::EyeConf::spec_column_len() + row,
                j * C::EyeConf::spec_column_len() + row,
            ),
    ensures
        grid_sum::<C>(t) == sum(
            |i: int| p(i, (i - rot * C::EyeConf::spec_column_len()) % (data_bit_len::<C::EyeConf>() as int)),
            data_bit_len::<C::EyeConf>(),
        ),
{
    let k = C::EyeConf::spec_columns();
    let len = C::EyeConf::spec_column_len();
    lemma_regroup::<C>(p, rot);
    let lhs = |row: int| sum(|j: int| t(row, j), k);
    let rhs = |row: int| sum(|j: int| p(((j + rot) % (k as int)) * len + row, j * len + row), k);
    assert forall|row: int| 0 <= row < len implies #[trigger] lhs(row) == rhs(row) by {
        lemma_sum_ext(|j: int| t(row, j), |j: int| p(((j + rot) % (k as int)) * len + row, j * len + row), k);
    }
    lemma_sum_ext(lhs, rhs, len);
}

/// In each rotation, the encoded counts are `#equal - #different` and `#unmasked`, and they meet
/// the threshold exactly when the plaintext codes match in that rotation.
proof fn lemma_rotation_agrees<C: EncodeConf>(
    query: PolyQuery<C>,
    code: PolyCode<C>,
    eye_new: Seq<bool>,
    mask_new: Seq<bool>,
    eye_store: Seq<bool>,
    mask_store: Seq<bool>,
    r: int,
)
    requires
        eye_new.len() == data_bit_len::<C::EyeConf>(),
        mask_new.len() == data_bit_len::<C::EyeConf>(),
        eye_store.len() == data_bit_len::<C::EyeConf>(),
        mask_store.len() == data_bit_len::<C::EyeConf>(),
        encodes_all::<C>(query.polys@, query.masks@, eye_new, mask_new, false),
        encodes_all::<C>(code.polys@, code.masks@, eye_store, mask_store, true),
        0 <= r < rotation_comparisons::<C::EyeConf>(),
        C::PlainConf::spec_modulus() > data_bit_len::<C::EyeConf>() + C::spec_rows_per_block() * C::EyeConf::spec_columns(),
    ensures
        forall|b: int| 0 <= b < num_blocks::<C>() ==> #[trigger] block_count::<C>(query.polys@, code.polys@, b, r) is Some,
        forall|b: int| 0 <= b < num_blocks::<C>() ==> #[trigger] block_count::<C>(query.masks@, code.masks@, b, r) is Some,
        encoded_rotation_matches::<C>(query.polys@, code.polys@, query.masks@, code.masks@, r) == rotation_matches::<C::EyeConf>(
            eye_new,
            mask_new,
            eye_store,
            mask_store,
            r - C::EyeConf::spec_rotation_limit(),
        ),
{
    C::lemma_encode_conf_valid();
    C::EyeConf::lemma_iris_conf_valid();
    C::PlainConf::lemma_conf_valid();
    let s = C::spec_rows_per_block();
    let k = C::EyeConf::spec_columns() as int;
    let len = C::EyeConf::spec_column_len() as int;
    let n = data_bit_len::<C::EyeConf>();
    let nb = num_blocks::<C>();
    let rho = r - C::EyeConf::spec_rotation_limit();
    let unset = unset_bits(n);
    let qp = query.polys@;
    let cp = code.polys@;
    let qm = query.masks@;
    let cm = code.masks@;
    assert(nb * s == len);
    assert forall|b: int| 0 <= b < nb implies #[trigger] encodes_block::<C>(qp[b], eye_new, mask_new, b * s, false)
        && encodes_block::<C>(qm[b], unset, mask_new, b * s, false) by {
        assert(block_encoded::<C>(qp[b], qm[b], eye_new, mask_new, b, false));
        assert(b * s + s <= len) by (nonlinear_arith)
            requires b < nb, nb * s == len;
        lemma_mask_encodes::<C>(qp[b], qm[b], eye_new, mask_new, b * s, false);
    }
    assert forall|b: int| 0 <= b < nb implies #[trigger] encodes_block::<C>(cp[b], eye_store, mask_store, b * s, true)
        && encodes_block::<C>(cm[b], unset, mask_store, b * s, true) by {
        assert(block_encoded::<C>(cp[b], cm[b], eye_store, mask_store, b, true));
        assert(b * s + s <= len) by (nonlinear_arith)
            requires b < nb, nb * s == len;
        lemma_mask_encodes::<C>(cp[b], cm[b], eye_store, mask_store, b * s, true);
    }
    assert forall|b: int| 0 <= b < nb implies #[trigger] encodes_block::<C>(qm[b], unset, mask_new, b * s, false) by {
        assert(encodes_block::<C>(qp[b], eye_new, mask_new, b * s, false));
    }
    assert forall|b: int| 0 <= b < nb implies #[trigger] encodes_block::<C>(cm[b], unset, mask_store, b * s, true) by {
        assert(encodes_block::<C>(cp[b], eye_store, mask_store, b * s, true));
    }
    lemma_count_sum_grid::<C>(qp, cp, eye_new, mask_new, eye_store, mask_store, r);
    lemma_count_sum_grid::<C>(qm, cm, unset, mask_new, unset, mask_store, r);
    let d_enc = count_sum::<C>(qp, cp, r, nb);
    let t_enc = count_sum::<C>(qm, cm, r, nb);
    // The pair quantities, on the bits of the new code and the stored code.
    let p_unm = |a: int, b: int| if mask_new[a] && mask_store[b] { 1int } else { 0int };
    let p_diff = |a: int, b: int| if mask_new[a] && mask_store[b] && eye_new[a] != eye_store[b] { 1int } else { 0int };
    let t_sign = |row: int, j: int| pair_term::<C>(eye_new, mask_new, eye_store, mask_store, row, j, rho);
    let t_mask = |row: int, j: int| pair_term::<C>(unset, mask_new, unset, mask_store, row, j, rho);
    let t_unm = |row: int, j: int| pair_unmasked::<C>(mask_new, mask_store, row, j, rho);
    let t_diff = |row: int, j: int| pair_differs::<C>(eye_new, mask_new, eye_store, mask_store, row, j, rho);
    assert forall|row: int, j: int|
        #![trigger t_sign(row, j)]
        #![trigger t_mask(row, j)]
        #![trigger t_unm(row, j)]
        #![trigger t_diff(row, j)]
        0 <= row < len && 0 <= j < k implies t_sign(row, j) == t_unm(row, j) - 2 * t_diff(row, j)
        && t_mask(row, j) == t_unm(row, j)
        && t_unm(row, j) == p_unm(((j + rho) % k) * len + row, j * len + row)
        && t_diff(row, j) == p_diff(((j + rho) % k) * len + row, j * len + row) by {
        lemma_mod_bound(j + rho, k);
        let c = (j + rho) % k;
        assert(0 <= c * len + row < len * k) by (nonlinear_arith)
            requires 0 <= c < k, 0 <= row < len;
        assert(0 <= j * len + row < len * k) by (nonlinear_arith)
            requires 0 <= j < k, 0 <= row < len;
        assert(unset[c * len + row] == false);
        assert(unset[j * len + row] == false);
    }
    // Sum over the grid, row by row.
    let rows_sign = |row: int| sum(|j: int| t_sign(row, j), k as nat);
    let rows_mask = |row: int| sum(|j: int| t_mask(row, j), k as nat);
    let rows_unm = |row: int| sum(|j: int| t_unm(row, j), k as nat);
    let rows_diff = |row: int| sum(|j: int| t_diff(row, j), k as nat);
    assert forall|row: int|
        #![trigger rows_sign(row)]
        #![trigger rows_mask(row)]
        0 <= row < len implies rows_sign(row) == rows_unm(row) - 2 * rows_diff(row)
        && rows_mask(row) == rows_unm(row) by {
        lemma_sum_sub_double(|j: int| t_unm(row, j), |j: int| t_diff(row, j), |j: int| t_sign(row, j), k as nat);
        lemma_sum_ext(|j: int| t_mask(row, j), |j: int| t_unm(row, j), k as nat);
    }
    lemma_sum_sub_double(rows_unm, rows_diff, rows_sign, len as nat);
    lemma_sum_ext(rows_mask, rows_unm, len as nat);
    assert(grid_sum::<C>(t_sign) == grid_sum::<C>(t_unm) - 2 * grid_sum::<C>(t_diff));
    assert(grid_sum::<C>(t_mask) == grid_sum::<C>(t_unm));
    // The plaintext counts.
    let rms = rotated(mask_store, rho * len);
    let res = rotated(eye_store, rho * len);
    lemma_grid_sum_bits::<C>(p_unm, t_unm, rho);
    lemma_grid_sum_bits::<C>(p_diff, t_diff, rho);
    lemma_count_unmasked_sum(mask_new, rms, n);
    lemma_count_differences_sum(eye_new, mask_new, res, rms, n);
    lemma_sum_ext(
        |i: int| p_unm(i, (i - rho * len) % (n as int)),
        |i: int| if mask_new[i] && rms[i] { 1int } else { 0int },
        n,
    );
    lemma_sum_ext(
        |i: int| p_diff(i, (i - rho * len) % (n as int)),
        |i: int| if mask_new[i] && rms[i] && eye_new[i] != res[i] { 1int } else { 0int },
        n,
    );
    let u = count_unmasked(mask_new, rms, n);
    let dd = count_differences(eye_new, mask_new, res, rms, n);
    assert(d_enc == u - 2 * dd);
    assert(t_enc == u);
    let den = C::EyeConf::spec_match_denominator() as int;
    let num = C::EyeConf::spec_match_numerator() as int;
    assert(meets_threshold::<C>(d_enc, t_enc) == (dd * den <= u * num)) by (nonlinear_arith)
        requires
            meets_threshold::<C>(d_enc, t_enc) == ((t_enc - d_enc) * den <= 2 * t_enc * num),
            d_enc == u - 2 * dd,
            t_enc == u;
}

/// Matching polynomial encodings is matching the iris codes they encode: when the query encodes
/// a new iris code and mask and the stored code encodes a stored iris code and mask, and the
/// plaintext modulus exceeds the data length plus the bits of one block, every encoded count is
/// in range, and the encodings match exactly when the plaintext codes match, in the same
/// rotation.
pub proof fn lemma_encoded_match_agrees<C: EncodeConf>(
    query: PolyQuery<C>,
    code: PolyCode<C>,
    eye_new: Seq<bool>,
    mask_new: Seq<bool>,
    eye_store: Seq<bool>,
    mask_store: Seq<bool>,
)
    requires
        eye_new.len() == data_bit_len::<C::EyeConf>(),
        mask_new.len() == data_bit_len::<C::EyeConf>(),
        eye_store.len() == data_bit_len::<C::EyeConf>(),
        mask_store.len() == data_bit_len::<C::EyeConf>(),
        encodes_all::<C>(query.polys@, query.masks@, eye_new, mask_new, false),
        encodes_all::<C>(code.polys@, code.masks@, eye_store, mask_store, true),
        C::PlainConf::spec_modulus() > data_bit_len::<C::EyeConf>() + C::spec_rows_per_block() * C::EyeConf::spec_columns(),
    ensures
        counts_in_range::<C>(query.polys@, code.polys@, query.polys@.len() as int),
        counts_in_range::<C>(query.masks@, code.masks@, query.masks@.len() as int),
        encoded_match::<C>(query.polys@, code.polys@, query.masks@, code.masks@) == iris_match::<C::EyeConf>(
            eye_new,
            mask_new,
            eye_store,
            mask_store,
        ),
{
    let v = C::EyeConf::spec_rotation_limit() as int;
    let rc = rotation_comparisons::<C::EyeConf>() as int;
    assert forall|r: int| 0 <= r < rc implies #[trigger] encoded_rotation_matches::<C>(query.polys@, code.polys@, query.masks@, code.masks@, r)
        == rotation_matches::<C::EyeConf>(eye_new, mask_new, eye_store, mask_store, r - v) by {
        lemma_rotation_agrees::<C>(query, code, eye_new, mask_new, eye_store, mask_store, r);
    }
    assert forall|b: int, r: int| 0 <= b < query.polys@.len() && 0 <= r < rc implies #[trigger] block_count::<C>(query.polys@, code.polys@, b, r) is Some by {
        lemma_rotation_agrees::<C>(query, code, eye_new, mask_new, eye_store, mask_store, r);
    }
    assert forall|b: int, r: int| 0 <= b < query.masks@.len() && 0 <= r < rc implies #[trigger] block_count::<C>(query.masks@, code.masks@, b, r) is Some by {
        lemma_rotation_agrees::<C>(query, code, eye_new, mask_new, eye_store, mask_store, r);
    }
    if encoded_match::<C>(query.polys@, code.polys@, query.masks@, code.masks@) {
        let r = choose|r: int| 0 <= r < rc && #[trigger] encoded_rotation_matches::<C>(query.polys@, code.polys@, query.masks@, code.masks@, r);
        assert(rotation_matches::<C::EyeConf>(eye_new, mask_new, eye_store, mask_store, r - v));
    }
    if iris_match::<C::EyeConf>(eye_new, mask_new, eye_store, mask_store) {
        let rot = choose|rot: int| -v <= rot <= v && #[trigger] rotation_matches::<C::EyeConf>(eye_new, mask_new, eye_store, mask_store, rot);
        assert(encoded_rotation_matches::<C>(query.polys@, code.polys@, query.masks@, code.masks@, rot + v));
    }
}

} // verus!
