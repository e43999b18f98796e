//! Iris matching operations on raw bit vectors.
use vstd::arithmetic::div_mod::*;
use vstd::arithmetic::mul::*;
use vstd::prelude::*;

use crate::primitives::sum::{lemma_sum_ext, lemma_sum_rotate, sum};
use crate::iris::{
    data_bit_len, rotation_comparisons, rotation_comparisons_exec, IrisCode, IrisConf, IrisMask,
};

verus! {

/// Returns the 1D index of a bit from 2D indices: bits are stored column by column, each column
/// holding `column_len` rows.
pub fn index_1d(column_len: usize, row_i: usize, col_i: usize) -> (r: usize)
    requires
        col_i * column_len + row_i <= usize::MAX,
    ensures
        r == col_i * column_len + row_i,
{
    col_i * column_len + row_i
}

/// The bits of `s` rotated cyclically by `by` places towards higher indexes.
pub open spec fn rotated(s: Seq<bool>, by: int) -> Seq<bool> {
    Seq::new(s.len(), |i: int| s[(i - by) % (s.len() as int)])
}

/// The number of bits below `len` that are visible in both masks.
pub open spec fn count_unmasked(mask_a: Seq<bool>, mask_b: Seq<bool>, len: nat) -> nat
    decreases len,
{
    if len == 0 {
        0
    } else {
        count_unmasked(mask_a, mask_b, (len - 1) as nat) + if mask_a[len - 1] && mask_b[len - 1] {
            1nat
        } else {
            0nat
        }
    }
}

/// The number of bits below `len` that are visible in both masks and differ between the codes.
pub open spec fn count_differences(eye_a: Seq<bool>, mask_a: Seq<bool>, eye_b: Seq<bool>, mask_b: Seq<bool>, len: nat) -> nat
    decreases len,
{
    if len == 0 {
        0
    } else {
        count_differences(eye_a, mask_a, eye_b, mask_b, (len - 1) as nat) + if mask_a[len - 1] && mask_b[len - 1]
            && eye_a[len - 1] != eye_b[len - 1] {
            1nat
        } else {
            0nat
        }
    }
}

/// The unmasked bits of two aligned codes meet the match threshold:
/// `differences / unmasked <= numerator / denominator`.
pub open spec fn aligned_match<C: IrisConf>(eye_a: Seq<bool>, mask_a: Seq<bool>, eye_b: Seq<bool>, mask_b: Seq<bool>) -> bool {
    count_differences(eye_a, mask_a, eye_b, mask_b, eye_a.len()) * C::spec_match_denominator()
        <= count_unmasked(mask_a, mask_b, eye_a.len()) * C::spec_match_numerator()
}

/// `eye_store` and `mask_store`, rotated by `rotation` columns, match `eye_new` and `mask_new`.
pub open spec fn rotation_matches<C: IrisConf>(
    eye_new: Seq<bool>,
    mask_new: Seq<bool>,
    eye_store: Seq<bool>,
    mask_store: Seq<bool>,
    rotation: int,
) -> bool {
    aligned_match::<C>(
        eye_new,
        mask_new,
        rotated(eye_store, rotation * C::spec_column_len()),
        rotated(mask_store, rotation * C::spec_column_len()),
    )
}

/// Two masked iris codes match: in at least one rotation of the stored code, by at most the
/// rotation limit in either direction, enough unmasked bits are equal.
pub open spec fn iris_match<C: IrisConf>(eye_new: Seq<bool>, mask_new: Seq<bool>, eye_store: Seq<bool>, mask_store: Seq<bool>) -> bool {
    exists|rotation: int|
        -C::spec_rotation_limit() <= rotation <= C::spec_rotation_limit()
            && #[trigger] rotation_matches::<C>(eye_new, mask_new, eye_store, mask_store, rotation)
}

/// Rotating twice is rotating by the sum.
pub proof fn lemma_rotated_compose(s: Seq<bool>, a: int, b: int)
    ensures
        rotated(rotated(s, a), b) == rotated(s, a + b),
{
    let n = s.len() as int;
    assert forall|i: int| 0 <= i < n implies rotated(rotated(s, a), b)[i] == rotated(s, a + b)[i] by {
        lemma_mod_bound(i - b, n);
        lemma_sub_mod_noop((i - b) % n + 0, a, n);
        lemma_mod_twice(i - b, n);
        lemma_sub_mod_noop(i - b, a, n);
    }
    assert(rotated(rotated(s, a), b) =~= rotated(s, a + b));
}

/// Rotates the iris code cyclically by `amount` columns: towards higher indexes for a positive
/// amount, towards lower indexes for a negative one.
pub fn rotate<C: IrisConf>(code: IrisCode, amount: isize) -> (r: IrisCode)
    requires
        code.bits@.len() <= 0x10_0000,
        (if amount < 0 { -amount } else { amount as int }) * C::spec_column_len() <= code.bits@.len(),
    ensures
        r.bits@ == rotated(code.bits@, amount * C::spec_column_len()),
{
    proof {
        C::lemma_iris_conf_valid();
    }
    let n = code.bits.len();
    let len = C::column_len();
    let magnitude: usize = if amount < 0 {
        (-(amount as i128)) as usize
    } else {
        amount as usize
    };
    proof {
        assert(magnitude * len <= n);
    }
    let by = magnitude * len;
    // the rotation towards higher indexes, in [0, n]
    let right = if amount < 0 {
        n - by
    } else {
        by
    };
    let mut bits: Vec<bool> = Vec::new();
    let mut i: usize = 0;
    while i < n
        invariant
            i <= n,
            n == code.bits@.len(),
            n <= 0x10_0000,
            right <= n,
            bits@.len() == i,
            forall|j: int| 0 <= j < i ==> bits@[j] == code.bits@[(j + n - right) % (n as int)],
        decreases n - i,
    {
        let src = (i + n - right) % n;
        bits.push(code.bits[src]);
        i += 1;
    }
    proof {
        let ni = n as int;
        let shift = amount * C::spec_column_len();
        assert forall|j: int| 0 <= j < ni implies bits@[j] == rotated(code.bits@, shift)[j] by {
            if amount < 0 {
                assert(shift == -(by as int)) by {
                    lemma_mul_unary_negation(-amount, len as int);
                }
                assert(j + ni - right == j - shift);
            } else {
                assert(j + ni - right == (j - shift) + ni);
                lemma_mod_add_multiples_vanish(j - shift, ni);
            }
        }
        assert(bits@ =~= rotated(code.bits@, shift));
    }
    IrisCode { bits }
}

/// Returns true if the aligned codes have enough equal unmasked bits to meet the threshold.
fn aligned_is_match<C: IrisConf>(eye_a: &IrisCode, mask_a: &IrisMask, eye_b: &IrisCode, mask_b: &IrisMask) -> (r: bool)
    requires
        eye_a.bits@.len() <= 0x10_0000,
        mask_a.bits@.len() == eye_a.bits@.len(),
        eye_b.bits@.len() == eye_a.bits@.len(),
        mask_b.bits@.len() == eye_a.bits@.len(),
    ensures
        r == aligned_match::<C>(eye_a.bits@, mask_a.bits@, eye_b.bits@, mask_b.bits@),
{
    proof {
        C::lemma_iris_conf_valid();
    }
    let n = eye_a.bits.len();
    let mut unmasked: usize = 0;
    let mut differences: usize = 0;
    let mut i: usize = 0;
    while i < n
        invariant
            i <= n,
            n == eye_a.bits@.len(),
            n <= 0x10_0000,
            mask_a.bits@.len() == n,
            eye_b.bits@.len() == n,
            mask_b.bits@.len() == n,
            unmasked == count_unmasked(mask_a.bits@, mask_b.bits@, i as nat),
            differences == count_differences(eye_a.bits@, mask_a.bits@, eye_b.bits@, mask_b.bits@, i as nat),
            unmasked <= i,
            differences <= i,
        decreases n - i,
    {
        if mask_a.bits[i] && mask_b.bits[i] {
            unmasked += 1;
            if eye_a.bits[i] != eye_b.bits[i] {
                differences += 1;
            }
        }
        i += 1;
    }
    proof {
        assert(differences * C::spec_match_denominator() <= 0x10_0000 * 1000) by (nonlinear_arith)
            requires differences <= 0x10_0000, C::spec_match_denominator() <= 1000;
        assert(unmasked * C::spec_match_numerator() <= 0x10_0000 * 1000) by (nonlinear_arith)
            requires unmasked <= 0x10_0000, C::spec_match_numerator() <= 1000, C::spec_match_numerator() <= C::spec_match_denominator();
    }
    differences * C::match_denominator() <= unmasked * C::match_numerator()
}

/// Returns true if `eye_new` and `eye_store` have enough identical bits to meet the threshold,
/// after masking with `mask_new` and `mask_store`, and rotating the stored code and mask by every
/// amount from minus the rotation limit to the rotation limit.
pub fn is_iris_match<C: IrisConf>(
    eye_new: &IrisCode,
    mask_new: &IrisMask,
    eye_store: &IrisCode,
    mask_store: &IrisMask,
) -> (r: bool)
    requires
        eye_new.bits@.len() == data_bit_len::<C>(),
        mask_new.bits@.len() == data_bit_len::<C>(),
        eye_store.bits@.len() == data_bit_len::<C>(),
        mask_store.bits@.len() == data_bit_len::<C>(),
    ensures
        r == iris_match::<C>(eye_new.bits@, mask_new.bits@, eye_store.bits@, mask_store.bits@),
{
    proof {
        C::lemma_iris_conf_valid();
        lemma_mul_inequality(C::spec_rotation_limit() as int, C::spec_columns() as int, C::spec_column_len() as int);
        lemma_mul_is_commutative(C::spec_columns() as int, C::spec_column_len() as int);
        assert(C::spec_column_len() <= C::spec_column_len() * C::spec_columns()) by (nonlinear_arith)
            requires C::spec_columns() >= 1;
    }
    let ghost len = C::spec_column_len() as int;
    let limit = C::rotation_limit();
    let mut store = rotate::<C>(eye_store.clone(), -(limit as isize));
    let mut store_mask = rotate::<C>(mask_store.clone(), -(limit as isize));
    let comparisons = rotation_comparisons_exec::<C>();
    let mut r: usize = 0;
    while r < comparisons
        invariant
            r <= comparisons,
            comparisons == rotation_comparisons::<C>(),
            limit == C::spec_rotation_limit(),
            len == C::spec_column_len(),
            len >= 1,
            eye_new.bits@.len() == data_bit_len::<C>(),
            mask_new.bits@.len() == data_bit_len::<C>(),
            eye_store.bits@.len() == data_bit_len::<C>(),
            mask_store.bits@.len() == data_bit_len::<C>(),
            data_bit_len::<C>() <= 0x10_0000,
            len <= data_bit_len::<C>(),
            store.bits@ == rotated(eye_store.bits@, (r - limit) * len),
            store_mask.bits@ == rotated(mask_store.bits@, (r - limit) * len),
            forall|rotation: int|
                -limit <= rotation < r - limit ==> !#[trigger] rotation_matches::<C>(eye_new.bits@, mask_new.bits@, eye_store.bits@, mask_store.bits@, rotation),
        decreases comparisons - r,
    {
        if aligned_is_match::<C>(eye_new, mask_new, &store, &store_mask) {
            proof {
                assert(rotation_matches::<C>(eye_new.bits@, mask_new.bits@, eye_store.bits@, mask_store.bits@, r - limit));
            }
            return true;
        }
        let ghost before = store.bits@;
        store = rotate::<C>(store, 1);
        store_mask = rotate::<C>(store_mask, 1);
        proof {
            lemma_rotated_compose(eye_store.bits@, (r - limit) * len, 1 * len);
            lemma_rotated_compose(mask_store.bits@, (r - limit) * len, 1 * len);
            assert((r - limit) * len + 1 * len == (r + 1 - limit) * len) by (nonlinear_arith);
        }
        r += 1;
    }
    proof {
        assert forall|rotation: int|
            -C::spec_rotation_limit() <= rotation <= C::spec_rotation_limit() implies !#[trigger] rotation_matches::<C>(
            eye_new.bits@, mask_new.bits@, eye_store.bits@, mask_store.bits@, rotation) by {
        }
    }
    false
}

/// Counting the bits visible in both masks, as a sum.
pub proof fn lemma_count_unmasked_sum(mask_a: Seq<bool>, mask_b: Seq<bool>, len: nat)
    ensures
        count_unmasked(mask_a, mask_b, len) == sum(|i: int| if mask_a[i] && mask_b[i] { 1int } else { 0int }, len),
    decreases len,
{
    if len > 0 {
        lemma_count_unmasked_sum(mask_a, mask_b, (len - 1) as nat);
    }
}

/// Counting the visible bits that differ, as a sum.
pub proof fn lemma_count_differences_sum(eye_a: Seq<bool>, mask_a: Seq<bool>, eye_b: Seq<bool>, mask_b: Seq<bool>, len: nat)
    ensures
        count_differences(eye_a, mask_a, eye_b, mask_b, len) == sum(
            |i: int| if mask_a[i] && mask_b[i] && eye_a[i] != eye_b[i] { 1int } else { 0int },
            len,
        ),
    decreases len,
{
    if len > 0 {
        lemma_count_differences_sum(eye_a, mask_a, eye_b, mask_b, (len - 1) as nat);
    }
}



/// Summing over a code and a rotated code is summing over the other code and the first code
/// rotated back.
proof fn lemma_rotated_pairs(p: spec_fn(int, int) -> int, n: nat, shift: int)
    requires
        n > 0,
    ensures
        sum(|i: int| p(i, (i - shift) % (n as int)), n) == sum(|j: int| p((j + shift) % (n as int), j), n),
{
    let ni = n as int;
    let f = |i: int| p(i, (i - shift) % ni);
    lemma_sum_rotate(f, n, shift);
    assert forall|j: int| 0 <= j < ni implies #[trigger] f((j + shift) % ni) == p((j + shift) % ni, j) by {
        lemma_sub_mod_noop(j + shift, shift, ni);
        lemma_mod_twice(shift, ni);
        lemma_sub_mod_noop((j + shift) % ni, shift, ni);
        lemma_mod_twice(j + shift, ni);
        lemma_small_mod(j as nat, n);
        assert(((j + shift) % ni - shift) % ni == j);
    }
    lemma_sum_ext(|j: int| f((j + shift) % ni), |j: int| p((j + shift) % ni, j), n);
}

/// A rotation of the stored code matches exactly when the opposite rotation of the new code
/// matches the stored code.
proof fn lemma_rotation_matches_swap<C: IrisConf>(
    eye_a: Seq<bool>,
    mask_a: Seq<bool>,
    eye_b: Seq<bool>,
    mask_b: Seq<bool>,
    rotation: int,
)
    requires
        eye_a.len() == data_bit_len::<C>(),
        mask_a.len() == data_bit_len::<C>(),
        eye_b.len() == data_bit_len::<C>(),
        mask_b.len() == data_bit_len::<C>(),
    ensures
        rotation_matches::<C>(eye_a, mask_a, eye_b, mask_b, rotation) == rotation_matches::<C>(
            eye_b,
            mask_b,
            eye_a,
            mask_a,
            -rotation,
        ),
{
    C::lemma_iris_conf_valid();
    let n = data_bit_len::<C>();
    let ni = n as int;
    assert(n > 0) by (nonlinear_arith)
        requires n == C::spec_column_len() * C::spec_columns(), C::spec_column_len() >= 1, C::spec_columns() >= 1;
    let s = rotation * C::spec_column_len();
    assert((-rotation) * C::spec_column_len() == -s) by (nonlinear_arith)
        requires s == rotation * C::spec_column_len();
    let rmb = rotated(mask_b, s);
    let reb = rotated(eye_b, s);
    let rma = rotated(mask_a, -s);
    let rea = rotated(eye_a, -s);
    let p_unm = |x: int, y: int| if mask_a[x] && mask_b[y] { 1int } else { 0int };
    let p_diff = |x: int, y: int| if mask_a[x] && mask_b[y] && eye_a[x] != eye_b[y] { 1int } else { 0int };
    lemma_rotated_pairs(p_unm, n, s);
    lemma_rotated_pairs(p_diff, n, s);
    lemma_count_unmasked_sum(mask_a, rmb, n);
    lemma_count_unmasked_sum(mask_b, rma, n);
    lemma_count_differences_sum(eye_a, mask_a, reb, rmb, n);
    lemma_count_differences_sum(eye_b, mask_b, rea, rma, n);
    lemma_sum_ext(|i: int| p_unm(i, (i - s) % ni), |i: int| if mask_a[i] && rmb[i] { 1int } else { 0int }, n);
    lemma_sum_ext(|j: int| p_unm((j + s) % ni, j), |j: int| if mask_b[j] && rma[j] { 1int } else { 0int }, n);
    lemma_sum_ext(
        |i: int| p_diff(i, (i - s) % ni),
        |i: int| if mask_a[i] && rmb[i] && eye_a[i] != reb[i] { 1int } else { 0int },
        n,
    );
    assert forall|j: int| 0 <= j < ni implies #[trigger] p_diff((j + s) % ni, j) == (if mask_b[j] && rma[j] && eye_b[j] != rea[j] {
        1int
    } else {
        0int
    }) by {
        assert(j - (-s) == j + s);
    }
    lemma_sum_ext(
        |j: int| p_diff((j + s) % ni, j),
        |j: int| if mask_b[j] && rma[j] && eye_b[j] != rea[j] { 1int } else { 0int },
        n,
    );
}

/// Matching does not depend on which code is the new one and which the stored one: swapping
/// them, with their masks, gives the same result.
pub proof fn lemma_iris_match_symmetric<C: IrisConf>(eye_a: Seq<bool>, mask_a: Seq<bool>, eye_b: Seq<bool>, mask_b: Seq<bool>)
    requires
        eye_a.len() == data_bit_len::<C>(),
        mask_a.len() == data_bit_len::<C>(),
        eye_b.len() == data_bit_len::<C>(),
        mask_b.len() == data_bit_len::<C>(),
    ensures
        iris_match::<C>(eye_a, mask_a, eye_b, mask_b) == iris_match::<C>(eye_b, mask_b, eye_a, mask_a),
{
    let v = C::spec_rotation_limit() as int;
    if iris_match::<C>(eye_a, mask_a, eye_b, mask_b) {
        let r = choose|r: int| -v <= r <= v && #[trigger] rotation_matches::<C>(eye_a, mask_a, eye_b, mask_b, r);
        lemma_rotation_matches_swap::<C>(eye_a, mask_a, eye_b, mask_b, r);
        assert(rotation_matches::<C>(eye_b, mask_b, eye_a, mask_a, -r));
    }
    if iris_match::<C>(eye_b, mask_b, eye_a, mask_a) {
        let r = choose|r: int| -v <= r <= v && #[trigger] rotation_matches::<C>(eye_b, mask_b, eye_a, mask_a, r);
        lemma_rotation_matches_swap::<C>(eye_b, mask_b, eye_a, mask_a, r);
        assert(rotation_matches::<C>(eye_a, mask_a, eye_b, mask_b, -r));
    }
}

} // verus!
