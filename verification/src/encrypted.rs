//! Iris matching operations on homomorphically encrypted, polynomial-encoded bit vectors.
//!
//! Each block polynomial of a [`PolyCode`] or [`PolyQuery`] is encrypted separately. Matching
//! multiplies the encrypted blocks, decrypts the products with the square of the private key,
//! and reads the inner products modulo `t`, centred on zero.
use vstd::arithmetic::div_mod::*;
use vstd::prelude::*;

pub mod agreement;

use crate::encoded::conf::{num_cols_and_pads, EncodeConf};
use crate::encoded::{inner_product_index, meets_threshold, MatchError, PolyCode, PolyQuery};
use crate::iris::{rotation_comparisons, rotation_comparisons_exec, IrisConf};
use crate::primitives::field::add_mod;
use crate::primitives::poly::algebra::{get, lemma_ring_mul_get_ext, negacyclic, ring_mul};
use crate::primitives::poly::conf::PolyConf;
use crate::primitives::poly::Poly;
use crate::primitives::yashe::conf::{yashe_params_valid, LiftConf, YasheConf};
use crate::primitives::yashe::{
    decode, is_encryption, lemma_is_encryption_coeffs, ring_product, scale_coeff, Ciphertext, Message, PrivateKey, PublicKey, Yashe,
};

verus! {

/// An encrypted iris code, encoded in polynomials. To be stored in the database.
pub struct EncryptedPolyCode<C: EncodeConf> where C::PlainConf: YasheConf {
    /// The encrypted polynomials, encoding data, one block of rows each. Storage variant.
    pub data: Vec<Ciphertext<C::PlainConf>>,
    /// The encrypted mask polynomials.
    pub masks: Vec<Ciphertext<C::PlainConf>>,
}

/// An encrypted iris code, encoded in polynomials. To be matched against an
/// [`EncryptedPolyCode`].
pub struct EncryptedPolyQuery<C: EncodeConf> where C::PlainConf: YasheConf {
    /// The encrypted polynomials, encoding data, one block of rows each. Query variant.
    pub data: Vec<Ciphertext<C::PlainConf>>,
    /// The encrypted mask polynomials.
    pub masks: Vec<Ciphertext<C::PlainConf>>,
}

/// A coefficient modulo `q` with `-1` (and every value above `(q - 1) / 2`) moved to work
/// modulo `t`: `t` is added, modulo `q`.
pub open spec fn convert_coeff<P: YasheConf>(c: int) -> int {
    if c > (P::spec_modulus() - 1) / 2 {
        (c + P::spec_t()) % P::spec_modulus()
    } else {
        c
    }
}

/// `c` encrypts the polynomial `orig` after its negative coefficients were converted to work
/// modulo `t`.
pub open spec fn converted_encryption<P: YasheConf>(c: Poly<P>, orig: Poly<P>, h: Poly<P>, s: Poly<P>, e: Poly<P>) -> bool {
    exists|m: Poly<P>|
        {
            &&& #[trigger] is_encryption(c, m, h, s, e)
            &&& forall|k: int| #[trigger] m.coeff(k) == convert_coeff::<P>(orig.coeff(k))
        }
}

/// `-1` is encoded as `q - 1`, so it is converted to work modulo `t`: every coefficient above
/// `(q - 1) / 2` gets `t` added, modulo `q`.
pub fn convert_negative_coefficients<C: EncodeConf>(polys: &mut Vec<Poly<C::PlainConf>>) where C::PlainConf: YasheConf
    requires
        forall|i: int| 0 <= i < old(polys)@.len() ==> #[trigger] old(polys)@[i].is_canonical(),
    ensures
        final(polys)@.len() == old(polys)@.len(),
        forall|i: int| 0 <= i < final(polys)@.len() ==> #[trigger] final(polys)@[i].is_canonical(),
        forall|i: int, k: int|
            0 <= i < final(polys)@.len() ==> #[trigger] final(polys)@[i].coeff(k) == convert_coeff::<C::PlainConf>(
                old(polys)@[i].coeff(k),
            ),
{
    proof {
        C::PlainConf::lemma_conf_valid();
        C::PlainConf::lemma_yashe_conf_valid();
    }
    let q = C::PlainConf::modulus();
    let t = C::PlainConf::t() as u128;
    let half = (q - 1) / 2;
    let ghost orig = polys@;
    let n = polys.len();
    let mut i: usize = 0;
    while i < n
        invariant
            i <= n,
            n == polys@.len(),
            orig.len() == n,
            q == C::PlainConf::spec_modulus(),
            t == C::PlainConf::spec_t(),
            t < q,
            half == (q - 1) / 2,
            crate::primitives::field::modulus_ok(q as int),
            forall|j: int| i <= j < n ==> polys@[j] == orig[j],
            forall|j: int| 0 <= j < n ==> #[trigger] orig[j].is_canonical(),
            forall|j: int| 0 <= j < i ==> #[trigger] polys@[j].is_canonical(),
            forall|j: int, k: int|
                0 <= j < i ==> #[trigger] polys@[j].coeff(k) == convert_coeff::<C::PlainConf>(orig[j].coeff(k)),
        decreases n - i,
    {
        let p = polys[i].duplicate();
        let len = p.coeffs.len();
        let mut coeffs: Vec<u128> = Vec::new();
        let mut k: usize = 0;
        while k < len
            invariant
                k <= len,
                len == p.coeffs@.len(),
                p.coeffs@ == orig[i as int].coeffs@,
                orig[i as int].is_canonical(),
                q == C::PlainConf::spec_modulus(),
                t == C::PlainConf::spec_t(),
                t < q,
                half == (q - 1) / 2,
                crate::primitives::field::modulus_ok(q as int),
                coeffs@.len() == k,
                forall|j: int| 0 <= j < k ==> (#[trigger] coeffs@[j] as int) < q,
                forall|j: int| 0 <= j < k ==> #[trigger] coeffs@[j] as int == convert_coeff::<C::PlainConf>(p.coeffs@[j] as int),
            decreases len - k,
        {
            let c = p.coeffs[k];
            let d = if c > half {
                add_mod(c, t, q)
            } else {
                c
            };
            proof {
                lemma_add_mod_noop(c as int, t as int, q as int);
                lemma_small_mod(t as nat, q as nat);
                lemma_small_mod(c as nat, q as nat);
            }
            coeffs.push(d);
            k += 1;
        }
        let converted = Poly::<C::PlainConf>::from_coefficients_vec(coeffs);
        proof {
            assert forall|kk: int| #[trigger] converted.coeff(kk) == convert_coeff::<C::PlainConf>(orig[i as int].coeff(kk)) by {
                if !(0 <= kk < len) {
                    assert((q as int - 1) / 2 >= 0);
                }
            }
        }
        polys.set(i, converted);
        i += 1;
    }
}

/// Encrypts each polynomial with its own pair of sampled polynomials `(s, e)`.
fn encrypt_all<P: YasheConf>(ctx: &Yashe<P>, polys: &Vec<Poly<P>>, public_key: &PublicKey<P>, errors: &Vec<(Poly<P>, Poly<P>)>) -> (r: Vec<Ciphertext<P>>)
    requires
        polys@.len() == errors@.len(),
        public_key.h.is_canonical(),
        forall|i: int| 0 <= i < polys@.len() ==> #[trigger] polys@[i].is_canonical(),
        forall|i: int| 0 <= i < errors@.len() ==> #[trigger] errors@[i].0.is_canonical(),
        forall|i: int| 0 <= i < errors@.len() ==> #[trigger] errors@[i].1.is_canonical(),
    ensures
        r@.len() == polys@.len(),
        forall|i: int|
            0 <= i < r@.len() ==> #[trigger] is_encryption(r@[i].c, polys@[i], public_key.h, errors@[i].0, errors@[i].1),
{
    let mut r: Vec<Ciphertext<P>> = Vec::new();
    let mut i: usize = 0;
    while i < polys.len()
        invariant
            i <= polys@.len(),
            polys@.len() == errors@.len(),
            public_key.h.is_canonical(),
            forall|j: int| 0 <= j < polys@.len() ==> #[trigger] polys@[j].is_canonical(),
            forall|j: int| 0 <= j < errors@.len() ==> #[trigger] errors@[j].0.is_canonical(),
            forall|j: int| 0 <= j < errors@.len() ==> #[trigger] errors@[j].1.is_canonical(),
            r@.len() == i,
            forall|j: int| 0 <= j < i ==> #[trigger] is_encryption(r@[j].c, polys@[j], public_key.h, errors@[j].0, errors@[j].1),
        decreases polys@.len() - i,
    {
        let m = polys[i].duplicate();
        let s = errors[i].0.duplicate();
        let e = errors[i].1.duplicate();
        proof {
            assert(errors@[i as int].0.is_canonical());
            assert(errors@[i as int].1.is_canonical());
            assert(polys@[i as int].is_canonical());
        }
        let c = ctx.encrypt_with_errors(Message { m }, public_key, s, e);
        proof {
            lemma_is_encryption_coeffs(c.c, m, public_key.h, s, e, polys@[i as int], errors@[i as int].0, errors@[i as int].1);
        }
        r.push(c);
        i += 1;
    }
    r
}

impl<C: EncodeConf> EncryptedPolyCode<C> where C::PlainConf: YasheConf {
    /// Encrypts a [`PolyCode`] by encrypting each polynomial, with the sampled polynomials
    /// `(s, e)` given for each data and mask polynomial.
    pub fn encrypt_code(
        ctx: &Yashe<C::PlainConf>,
        code: PolyCode<C>,
        public_key: &PublicKey<C::PlainConf>,
        data_errors: &Vec<(Poly<C::PlainConf>, Poly<C::PlainConf>)>,
        mask_errors: &Vec<(Poly<C::PlainConf>, Poly<C::PlainConf>)>,
    ) -> (r: Self)
        requires
            code.polys@.len() == data_errors@.len(),
            code.masks@.len() == mask_errors@.len(),
            public_key.h.is_canonical(),
            forall|i: int| 0 <= i < code.polys@.len() ==> #[trigger] code.polys@[i].is_canonical(),
            forall|i: int| 0 <= i < code.masks@.len() ==> #[trigger] code.masks@[i].is_canonical(),
            forall|i: int|
                0 <= i < data_errors@.len() ==> #[trigger] data_errors@[i].0.is_canonical(),
            forall|i: int| 0 <= i < data_errors@.len() ==> #[trigger] data_errors@[i].1.is_canonical(),
            forall|i: int|
                0 <= i < mask_errors@.len() ==> #[trigger] mask_errors@[i].0.is_canonical(),
            forall|i: int| 0 <= i < mask_errors@.len() ==> #[trigger] mask_errors@[i].1.is_canonical(),
        ensures
            r.data@.len() == code.polys@.len(),
            r.masks@.len() == code.masks@.len(),
            forall|i: int|
                0 <= i < r.data@.len() ==> #[trigger] is_encryption(
                    r.data@[i].c,
                    code.polys@[i],
                    public_key.h,
                    data_errors@[i].0,
                    data_errors@[i].1,
                ),
            forall|i: int|
                0 <= i < r.masks@.len() ==> #[trigger] is_encryption(
                    r.masks@[i].c,
                    code.masks@[i],
                    public_key.h,
                    mask_errors@[i].0,
                    mask_errors@[i].1,
                ),
    {
        let data = encrypt_all(ctx, &code.polys, public_key, data_errors);
        let masks = encrypt_all(ctx, &code.masks, public_key, mask_errors);
        EncryptedPolyCode { data, masks }
    }

    /// Converts the negative coefficients of a [`PolyCode`] to work modulo `t`, then encrypts it.
    pub fn convert_and_encrypt_code(
        ctx: &Yashe<C::PlainConf>,
        code: PolyCode<C>,
        public_key: &PublicKey<C::PlainConf>,
        data_errors: &Vec<(Poly<C::PlainConf>, Poly<C::PlainConf>)>,
        mask_errors: &Vec<(Poly<C::PlainConf>, Poly<C::PlainConf>)>,
    ) -> (r: Self)
        requires
            code.polys@.len() == data_errors@.len(),
            code.masks@.len() == mask_errors@.len(),
            public_key.h.is_canonical(),
            forall|i: int| 0 <= i < code.polys@.len() ==> #[trigger] code.polys@[i].is_canonical(),
            forall|i: int| 0 <= i < code.masks@.len() ==> #[trigger] code.masks@[i].is_canonical(),
            forall|i: int|
                0 <= i < data_errors@.len() ==> #[trigger] data_errors@[i].0.is_canonical(),
            forall|i: int| 0 <= i < data_errors@.len() ==> #[trigger] data_errors@[i].1.is_canonical(),
            forall|i: int|
                0 <= i < mask_errors@.len() ==> #[trigger] mask_errors@[i].0.is_canonical(),
            forall|i: int| 0 <= i < mask_errors@.len() ==> #[trigger] mask_errors@[i].1.is_canonical(),
        ensures
            r.data@.len() == code.polys@.len(),
            r.masks@.len() == code.masks@.len(),
            forall|i: int|
                0 <= i < r.data@.len() ==> #[trigger] converted_encryption(
                    r.data@[i].c,
                    code.polys@[i],
                    public_key.h,
                    data_errors@[i].0,
                    data_errors@[i].1,
                ),
            forall|i: int|
                0 <= i < r.masks@.len() ==> #[trigger] is_encryption(
                    r.masks@[i].c,
                    code.masks@[i],
                    public_key.h,
                    mask_errors@[i].0,
                    mask_errors@[i].1,
                ),
    {
        let mut code = code;
        let ghost orig = code.polys@;
        convert_negative_coefficients::<C>(&mut code.polys);
        proof {
            assert forall|i: int| 0 <= i < code.polys@.len() implies #[trigger] code.polys@[i].is_canonical() by {
                assert(code.polys@[i].is_canonical());
            }
        }
        let r = Self::encrypt_code(ctx, code, public_key, data_errors, mask_errors);
        proof {
            assert forall|i: int| 0 <= i < r.data@.len() implies #[trigger] converted_encryption(
                r.data@[i].c,
                orig[i],
                public_key.h,
                data_errors@[i].0,
                data_errors@[i].1,
            ) by {
                assert(is_encryption(r.data@[i].c, code.polys@[i], public_key.h, data_errors@[i].0, data_errors@[i].1));
            }
        }
        r
    }
}

impl<C: EncodeConf> EncryptedPolyQuery<C> where C::PlainConf: YasheConf {
    /// Encrypts a [`PolyQuery`] by encrypting each polynomial, with the sampled polynomials
    /// `(s, e)` given for each data and mask polynomial.
    pub fn encrypt_query(
        ctx: &Yashe<C::PlainConf>,
        query: PolyQuery<C>,
        public_key: &PublicKey<C::PlainConf>,
        data_errors: &Vec<(Poly<C::PlainConf>, Poly<C::PlainConf>)>,
        mask_errors: &Vec<(Poly<C::PlainConf>, Poly<C::PlainConf>)>,
    ) -> (r: Self)
        requires
            query.polys@.len() == data_errors@.len(),
            query.masks@.len() == mask_errors@.len(),
            public_key.h.is_canonical(),
            forall|i: int| 0 <= i < query.polys@.len() ==> #[trigger] query.polys@[i].is_canonical(),
            forall|i: int| 0 <= i < query.masks@.len() ==> #[trigger] query.masks@[i].is_canonical(),
            forall|i: int|
                0 <= i < data_errors@.len() ==> #[trigger] data_errors@[i].0.is_canonical(),
            forall|i: int| 0 <= i < data_errors@.len() ==> #[trigger] data_errors@[i].1.is_canonical(),
            forall|i: int|
                0 <= i < mask_errors@.len() ==> #[trigger] mask_errors@[i].0.is_canonical(),
            forall|i: int| 0 <= i < mask_errors@.len() ==> #[trigger] mask_errors@[i].1.is_canonical(),
        ensures
            r.data@.len() == query.polys@.len(),
            r.masks@.len() == query.masks@.len(),
            forall|i: int|
                0 <= i < r.data@.len() ==> #[trigger] is_encryption(
                    r.data@[i].c,
                    query.polys@[i],
                    public_key.h,
                    data_errors@[i].0,
                    data_errors@[i].1,
                ),
            forall|i: int|
                0 <= i < r.masks@.len() ==> #[trigger] is_encryption(
                    r.masks@[i].c,
                    query.masks@[i],
                    public_key.h,
                    mask_errors@[i].0,
                    mask_errors@[i].1,
                ),
    {
        let data = encrypt_all(ctx, &query.polys, public_key, data_errors);
        let masks = encrypt_all(ctx, &query.masks, public_key, mask_errors);
        EncryptedPolyQuery { data, masks }
    }

    /// Converts the negative coefficients of a [`PolyQuery`] to work modulo `t`, then encrypts
    /// it.
    pub fn convert_and_encrypt_query(
        ctx: &Yashe<C::PlainConf>,
        query: PolyQuery<C>,
        public_key: &PublicKey<C::PlainConf>,
        data_errors: &Vec<(Poly<C::PlainConf>, Poly<C::PlainConf>)>,
        mask_errors: &Vec<(Poly<C::PlainConf>, Poly<C::PlainConf>)>,
    ) -> (r: Self)
        requires
            query.polys@.len() == data_errors@.len(),
            query.masks@.len() == mask_errors@.len(),
            public_key.h.is_canonical(),
            forall|i: int| 0 <= i < query.polys@.len() ==> #[trigger] query.polys@[i].is_canonical(),
            forall|i: int| 0 <= i < query.masks@.len() ==> #[trigger] query.masks@[i].is_canonical(),
            forall|i: int|
                0 <= i < data_errors@.len() ==> #[trigger] data_errors@[i].0.is_canonical(),
            forall|i: int| 0 <= i < data_errors@.len() ==> #[trigger] data_errors@[i].1.is_canonical(),
            forall|i: int|
                0 <= i < mask_errors@.len() ==> #[trigger] mask_errors@[i].0.is_canonical(),
            forall|i: int| 0 <= i < mask_errors@.len() ==> #[trigger] mask_errors@[i].1.is_canonical(),
        ensures
            r.data@.len() == query.polys@.len(),
            r.masks@.len() == query.masks@.len(),
            forall|i: int|
                0 <= i < r.data@.len() ==> #[trigger] converted_encryption(
                    r.data@[i].c,
                    query.polys@[i],
                    public_key.h,
                    data_errors@[i].0,
                    data_errors@[i].1,
                ),
            forall|i: int|
                0 <= i < r.masks@.len() ==> #[trigger] is_encryption(
                    r.masks@[i].c,
                    query.masks@[i],
                    public_key.h,
                    mask_errors@[i].0,
                    mask_errors@[i].1,
                ),
    {
        let mut query = query;
        let ghost orig = query.polys@;
        convert_negative_coefficients::<C>(&mut query.polys);
        let r = Self::encrypt_query(ctx, query, public_key, data_errors, mask_errors);
        proof {
            assert forall|i: int| 0 <= i < r.data@.len() implies #[trigger] converted_encryption(
                r.data@[i].c,
                orig[i],
                public_key.h,
                data_errors@[i].0,
                data_errors@[i].1,
            ) by {
                assert(is_encryption(r.data@[i].c, query.polys@[i], public_key.h, data_errors@[i].0, data_errors@[i].1));
            }
        }
        r
    }
}


/// The dense coefficients of the product of two ciphertexts, as ciphertext multiplication
/// computes them.
pub open spec fn ciphertext_product<P: YasheConf>(a: Poly<P>, b: Poly<P>) -> Seq<int> {
    Seq::new(
        P::spec_max_poly_degree(),
        |i: int| scale_coeff::<P>(negacyclic(a.ints(), b.ints(), P::spec_max_poly_degree(), i)),
    )
}

/// Coefficient `k` of the product of two ciphertexts, decrypted with `key`.
pub open spec fn decrypted_product_coeff<P: YasheConf>(a: Poly<P>, b: Poly<P>, key: Poly<P>, k: int) -> int {
    decode::<P>(get(ring_mul(ciphertext_product(a, b), key.ints(), P::spec_max_poly_degree(), P::spec_modulus()), k))
}

/// A coefficient modulo `t` read as a signed integer: values above `t / 2` are negative.
pub open spec fn signed_mod_t<P: YasheConf>(c: int) -> int {
    if c > P::spec_t() / 2 {
        c - P::spec_t()
    } else {
        c
    }
}

/// The decrypted inner product of block `blk` for rotation number `r`, as a signed count.
pub open spec fn encrypted_block_count<C: EncodeConf>(
    a: Seq<Ciphertext<C::PlainConf>>,
    b: Seq<Ciphertext<C::PlainConf>>,
    key: Poly<C::PlainConf>,
    blk: int,
    r: int,
) -> int where C::PlainConf: YasheConf {
    signed_mod_t::<C::PlainConf>(decrypted_product_coeff(a[blk].c, b[blk].c, key, inner_product_index::<C>(r)))
}

/// The decrypted counts of rotation number `r`, summed over the first `upto` blocks.
pub open spec fn encrypted_count_sum<C: EncodeConf>(
    a: Seq<Ciphertext<C::PlainConf>>,
    b: Seq<Ciphertext<C::PlainConf>>,
    key: Poly<C::PlainConf>,
    r: int,
    upto: nat,
) -> int where C::PlainConf: YasheConf
    decreases upto,
{
    if upto == 0 {
        0
    } else {
        encrypted_count_sum::<C>(a, b, key, r, (upto - 1) as nat) + encrypted_block_count::<C>(a, b, key, upto - 1, r)
    }
}

/// The encrypted query and code, decrypted with `key`, meet the threshold in rotation number
/// `r`.
pub open spec fn encrypted_rotation_matches<C: EncodeConf>(
    query: EncryptedPolyQuery<C>,
    code: EncryptedPolyCode<C>,
    key: Poly<C::PlainConf>,
    r: int,
) -> bool where C::PlainConf: YasheConf {
    meets_threshold::<C>(
        encrypted_count_sum::<C>(query.data@, code.data@, key, r, query.data@.len()),
        encrypted_count_sum::<C>(query.masks@, code.masks@, key, r, query.masks@.len()),
    )
}

/// The encrypted query and code match in at least one rotation, decrypting with `key`.
pub open spec fn encrypted_match<C: EncodeConf>(
    query: EncryptedPolyQuery<C>,
    code: EncryptedPolyCode<C>,
    key: Poly<C::PlainConf>,
) -> bool where C::PlainConf: YasheConf {
    exists|r: int| 0 <= r < rotation_comparisons::<C::EyeConf>() && #[trigger] encrypted_rotation_matches::<C>(query, code, key, r)
}

/// Every ciphertext in the sequence is in canonical form.
pub open spec fn all_ciphertexts_canonical<P: YasheConf>(cs: Seq<Ciphertext<P>>) -> bool {
    forall|i: int| 0 <= i < cs.len() ==> #[trigger] cs[i].c.is_canonical()
}

/// Multiplies the encrypted blocks, decrypts the products with `key`, and accumulates the signed
/// inner products for each rotation.
fn accumulate_encrypted<C: EncodeConf>(
    ctx: &Yashe<C::PlainConf>,
    key: &Poly<C::PlainConf>,
    a: &Vec<Ciphertext<C::PlainConf>>,
    b: &Vec<Ciphertext<C::PlainConf>>,
) -> (r: Vec<i128>) where C::PlainConf: YasheConf
    requires
        a@.len() == b@.len(),
        a@.len() <= 0x1_0000_0000,
        all_ciphertexts_canonical(a@),
        all_ciphertexts_canonical(b@),
        key.is_canonical(),
    ensures
        r@.len() == rotation_comparisons::<C::EyeConf>(),
        forall|j: int| 0 <= j < r@.len() ==> #[trigger] r@[j] == encrypted_count_sum::<C>(a@, b@, *key, j, a@.len()),
        forall|j: int| 0 <= j < r@.len() ==> -0x1_0000 * a@.len() <= #[trigger] r@[j] <= 0x1_0000 * a@.len(),
{
    proof {
        C::lemma_encode_conf_valid();
        C::EyeConf::lemma_iris_conf_valid();
        C::PlainConf::lemma_conf_valid();
        C::PlainConf::lemma_yashe_conf_valid();
    }
    let rc = rotation_comparisons_exec::<C::EyeConf>();
    let s = C::rows_per_block();
    let d = C::EyeConf::columns() + 2 * C::EyeConf::rotation_limit();
    proof {
        assert(d * s <= C::PlainConf::spec_max_poly_degree());
        assert(rc <= d * s) by (nonlinear_arith)
            requires rc <= d, s >= 1;
        assert(s * d == d * s) by (nonlinear_arith);
    }
    let base = s * d - rc;
    let t = C::PlainConf::t() as u128;
    let half_t = t / 2;
    let mut counts: Vec<i128> = Vec::new();
    let mut j: usize = 0;
    while j < rc
        invariant
            j <= rc,
            counts@.len() == j,
            forall|jj: int| 0 <= jj < j ==> counts@[jj] == 0,
        decreases rc - j,
    {
        counts.push(0);
        j += 1;
    }
    let n = a.len();
    let mut blk: usize = 0;
    while blk < n
        invariant
            blk <= n,
            n == a@.len(),
            a@.len() == b@.len(),
            n <= 0x1_0000_0000,
            all_ciphertexts_canonical(a@),
            all_ciphertexts_canonical(b@),
            key.is_canonical(),
            rc == rotation_comparisons::<C::EyeConf>(),
            base + rc <= C::PlainConf::spec_max_poly_degree(),
            base == inner_product_index::<C>(0),
            C::PlainConf::spec_modulus() > 2,
            0 < C::PlainConf::spec_max_poly_degree() <= 0x10_0000,
            t == C::PlainConf::spec_t(),
            2 <= t <= 0x1_0000,
            half_t == t / 2,
            counts@.len() == rc,
            forall|jj: int| 0 <= jj < rc ==> #[trigger] counts@[jj] == encrypted_count_sum::<C>(a@, b@, *key, jj, blk as nat),
            forall|jj: int| 0 <= jj < rc ==> -0x1_0000 * blk <= #[trigger] counts@[jj] <= 0x1_0000 * blk,
        decreases n - blk,
    {
        proof {
            assert(a@[blk as int].c.is_canonical());
            assert(b@[blk as int].c.is_canonical());
        }
        let product = ctx.ciphertext_mul(a[blk].clone(), b[blk].clone());
        let decrypted = ctx.decrypt_helper(product, key);
        proof {
            let cp = ciphertext_product(a@[blk as int].c, b@[blk as int].c);
            assert forall|i: int| #[trigger] get(product.c.ints(), i) == get(cp, i) by {
                if 0 <= i < C::PlainConf::spec_max_poly_degree() {
                    assert(product.c.coeff(i) == scale_coeff::<C::PlainConf>(
                        negacyclic(a@[blk as int].c.ints(), b@[blk as int].c.ints(), C::PlainConf::spec_max_poly_degree(), i),
                    ));
                }
            }
            lemma_ring_mul_get_ext(product.c.ints(), cp, key.ints(), C::PlainConf::spec_max_poly_degree(), C::PlainConf::spec_modulus());
        }
        let mut rr: usize = 0;
        while rr < rc
            invariant
                rr <= rc,
                blk < n,
                n == a@.len(),
                n <= 0x1_0000_0000,
                rc == rotation_comparisons::<C::EyeConf>(),
                base + rc <= C::PlainConf::spec_max_poly_degree(),
                base == inner_product_index::<C>(0),
                0 < C::PlainConf::spec_max_poly_degree() <= 0x10_0000,
                t == C::PlainConf::spec_t(),
                2 <= t <= 0x1_0000,
                half_t == t / 2,
                decrypted.m.is_canonical(),
                forall|i: int|
                    0 <= i < C::PlainConf::spec_max_poly_degree() ==> #[trigger] decrypted.m.coeff(i) == decrypted_product_coeff(
                        a@[blk as int].c,
                        b@[blk as int].c,
                        *key,
                        i,
                    ),
                counts@.len() == rc,
                forall|jj: int| 0 <= jj < rr ==> #[trigger] counts@[jj] == encrypted_count_sum::<C>(a@, b@, *key, jj, (blk + 1) as nat),
                forall|jj: int| rr <= jj < rc ==> #[trigger] counts@[jj] == encrypted_count_sum::<C>(a@, b@, *key, jj, blk as nat),
                forall|jj: int| 0 <= jj < rr ==> -0x1_0000 * (blk + 1) <= #[trigger] counts@[jj] <= 0x1_0000 * (blk + 1),
                forall|jj: int| rr <= jj < rc ==> -0x1_0000 * blk <= #[trigger] counts@[jj] <= 0x1_0000 * blk,
            decreases rc - rr,
        {
            let idx = base + rr;
            let c: u128 = if idx < decrypted.m.coeffs.len() {
                decrypted.m.coeffs[idx]
            } else {
                0
            };
            proof {
                assert(idx as int == inner_product_index::<C>(rr as int));
                assert(c == decrypted.m.coeff(idx as int));
                let dv = decrypted_product_coeff(a@[blk as int].c, b@[blk as int].c, *key, idx as int);
                lemma_mod_bound(
                    (get(
                        ring_mul(
                            ciphertext_product(a@[blk as int].c, b@[blk as int].c),
                            key.ints(),
                            C::PlainConf::spec_max_poly_degree(),
                            C::PlainConf::spec_modulus(),
                        ),
                        idx as int,
                    ) * C::PlainConf::spec_t() + (C::PlainConf::spec_modulus() - 1) / 2) / C::PlainConf::spec_modulus(),
                    C::PlainConf::spec_t() as int,
                );
                assert(c < t);
            }
            let v: i128 = if c > half_t {
                -((t - c) as i128)
            } else {
                c as i128
            };
            proof {
                assert(v == encrypted_block_count::<C>(a@, b@, *key, blk as int, rr as int));
                assert(0x1_0000 * (blk + 1) == 0x1_0000 * blk + 0x1_0000);
                assert(0x1_0000 * blk <= 0x1_0000 * 0x1_0000_0000) by (nonlinear_arith)
                    requires blk <= 0x1_0000_0000;
            }
            let updated = counts[rr] + v;
            counts.set(rr, updated);
            rr += 1;
        }
        blk += 1;
    }
    counts
}

impl<C: EncodeConf> EncryptedPolyQuery<C> where C::PlainConf: YasheConf {
    /// Returns true if `self` and `code` have enough identical bits to meet the threshold, in at
    /// least one rotation: the encrypted blocks are multiplied, the products are decrypted with
    /// the square of the private key, and the inner products are read modulo `t`, centred on
    /// zero.
    pub fn is_match(&self, ctx: &Yashe<C::PlainConf>, private_key: &PrivateKey<C::PlainConf>, code: &EncryptedPolyCode<C>) -> (r: Result<bool, MatchError>)
        requires
            self.data@.len() == code.data@.len(),
            self.masks@.len() == code.masks@.len(),
            self.data@.len() <= 0x1_0000_0000,
            self.masks@.len() <= 0x1_0000_0000,
            all_ciphertexts_canonical(self.data@),
            all_ciphertexts_canonical(self.masks@),
            all_ciphertexts_canonical(code.data@),
            all_ciphertexts_canonical(code.masks@),
            private_key.priv_key.is_canonical(),
        ensures
            exists|key: Poly<C::PlainConf>|
                {
                    &&& key.is_canonical()
                    &&& key.ring() == ring_product(private_key.priv_key, private_key.priv_key)
                    &&& r == Ok::<bool, MatchError>(#[trigger] encrypted_match::<C>(*self, *code, key))
                },
    {
        proof {
            C::EyeConf::lemma_iris_conf_valid();
        }
        let key = private_key.priv_key.mul(&private_key.priv_key);
        let match_counts = accumulate_encrypted::<C>(ctx, &key, &self.data, &code.data);
        let mask_counts = accumulate_encrypted::<C>(ctx, &key, &self.masks, &code.masks);
        proof {
            let ld = self.data@.len() as int;
            let lm = self.masks@.len() as int;
            assert(0x1_0000 * ld <= 0x1_0000_0000_0000) by (nonlinear_arith)
                requires ld <= 0x1_0000_0000;
            assert(0x1_0000 * lm <= 0x1_0000_0000_0000) by (nonlinear_arith)
                requires lm <= 0x1_0000_0000;
        }
        let den = C::EyeConf::match_denominator() as i128;
        let num = C::EyeConf::match_numerator() as i128;
        let rc = match_counts.len();
        let mut rr: usize = 0;
        while rr < rc
            invariant
                rr <= rc,
                rc == rotation_comparisons::<C::EyeConf>(),
                match_counts@.len() == rc,
                mask_counts@.len() == rc,
                self.data@.len() <= 0x1_0000_0000,
                self.masks@.len() <= 0x1_0000_0000,
                den == C::EyeConf::spec_match_denominator(),
                num == C::EyeConf::spec_match_numerator(),
                0 < den <= 1000,
                0 <= num <= den,
                forall|jj: int|
                    0 <= jj < rc ==> #[trigger] match_counts@[jj] == encrypted_count_sum::<C>(self.data@, code.data@, key, jj, self.data@.len()),
                forall|jj: int|
                    0 <= jj < rc ==> #[trigger] mask_counts@[jj] == encrypted_count_sum::<C>(self.masks@, code.masks@, key, jj, self.masks@.len()),
                forall|jj: int| 0 <= jj < rc ==> -0x1_0000_0000_0000 <= #[trigger] match_counts@[jj] <= 0x1_0000_0000_0000,
                forall|jj: int| 0 <= jj < rc ==> -0x1_0000_0000_0000 <= #[trigger] mask_counts@[jj] <= 0x1_0000_0000_0000,
                forall|jj: int| 0 <= jj < rr ==> !#[trigger] encrypted_rotation_matches::<C>(*self, *code, key, jj),
                key.is_canonical(),
                key.ring() == ring_product(private_key.priv_key, private_key.priv_key),
            decreases rc - rr,
        {
            let d = match_counts[rr];
            let t = mask_counts[rr];
            proof {
                let x = t - d;
                assert(-0x1000_0000_0000_0000 <= x * den <= 0x1000_0000_0000_0000) by (nonlinear_arith)
                    requires -0x2_0000_0000_0000 <= x <= 0x2_0000_0000_0000, 0 < den <= 1000;
                assert(-0x1000_0000_0000_0000 <= 2 * t * num <= 0x1000_0000_0000_0000) by (nonlinear_arith)
                    requires -0x1_0000_0000_0000 <= t <= 0x1_0000_0000_0000, 0 <= num <= 1000;
            }
            if (t - d) * den <= 2 * t * num {
                proof {
                    assert(encrypted_rotation_matches::<C>(*self, *code, key, rr as int));
                    assert(encrypted_match::<C>(*self, *code, key));
                }
                return Ok(true);
            }
            rr += 1;
        }
        proof {
            assert(!encrypted_match::<C>(*self, *code, key));
        }
        Ok(false)
    }
}

} // verus!
