//! Matching encrypted encodings is matching the encodings themselves, when the noise is small.
//!
//! The argument: a block coefficient is `0`, `1` or `q - 1`, and after conversion `0`, `1` or
//! `t - 1`, so both are congruent to the sign of the bit, modulo `q` and modulo `t` in turn.
//! Decrypting a product of encrypted blocks gives the product of the converted blocks modulo
//! `t` (see `lemma_decrypt_mul`), which is the signed inner product modulo `t`; when that inner
//! product fits in `t`, read centred on zero, it is the count the encoded blocks give.
use vstd::arithmetic::div_mod::*;
use vstd::prelude::*;

use crate::encoded::conf::{coeff_int, num_cols_and_pads, EncodeConf};
use crate::encoded::agreement::{lemma_block_coeff_values, lemma_encoded_match_agrees};
use crate::encoded::{
    block_count, count_sum, encoded_match, encoded_rotation_matches, encodes_all, inner_product_index, PolyCode, PolyQuery,
};
use crate::plaintext::iris_match;
use crate::encrypted::{
    ciphertext_product, convert_coeff, decrypted_product_coeff, encrypted_block_count, encrypted_count_sum, encrypted_match,
    encrypted_rotation_matches, signed_mod_t, EncryptedPolyCode, EncryptedPolyQuery,
};
use crate::iris::{data_bit_len, rotation_comparisons, IrisConf};
use crate::primitives::poly::algebra::{get, negacyclic, ring_mul};
use crate::primitives::poly::conf::PolyConf;
use crate::primitives::poly::ring::{lemma_nega_cong, lemma_ring_mul_nega, nega};
use crate::primitives::poly::Poly;
use crate::primitives::yashe::conf::{LiftConf, YasheConf};
use crate::primitives::yashe::correctness::{is_private_key_of, is_public_key_of, lemma_canonical_facts};
use crate::primitives::yashe::product::{lemma_decrypt_mul_coeff, multiplication_noise};
use crate::primitives::yashe::{center_lift, is_encryption, ring_product, Ciphertext, PrivateKey, PublicKey};

verus! {

/// Every coefficient of `p` is `0`, `1` or `q - 1`: the sign of a bit, as a block encodes it.
pub open spec fn sign_coeffs<P: PolyConf>(p: Poly<P>) -> bool {
    forall|i: int| #![trigger p.coeff(i)] p.coeff(i) == 0 || p.coeff(i) == 1 || p.coeff(i) == P::spec_modulus() - 1
}

/// The coefficients of `p` read as signs: `q - 1` is `-1`.
pub open spec fn signs<P: PolyConf>(p: Poly<P>) -> Seq<int> {
    Seq::new(
        P::spec_max_poly_degree(),
        |i: int|
            if p.coeff(i) == P::spec_modulus() - 1 {
                -1int
            } else {
                p.coeff(i)
            },
    )
}

/// The exact coefficient `k` of the product of the sign sequences of two blocks: for an inner
/// product index, `#equal - #different` over the block.
pub open spec fn signed_product<P: PolyConf>(a: Poly<P>, b: Poly<P>, k: int) -> int {
    nega(signs(a), signs(b), P::spec_max_poly_degree(), k)
}

/// The product of the fresh encryptions `c1` of `m1` and `c2` of `m2` decrypts to the product of
/// the messages (see `lemma_decrypt_mul`): no exact product coefficient of the ciphertexts
/// wraps around the lifted modulus, the exact message product stays within `(q - 1) / 2`, and
/// the multiplication noise is small.
pub open spec fn product_decrypts<P: YasheConf>(
    f: Poly<P>,
    g: Poly<P>,
    m1: Poly<P>,
    s1: Poly<P>,
    e1: Poly<P>,
    c1: Poly<P>,
    m2: Poly<P>,
    s2: Poly<P>,
    e2: Poly<P>,
    c2: Poly<P>,
) -> bool {
    let n = P::spec_max_poly_degree();
    let q = P::spec_modulus();
    let t = P::spec_t() as int;
    let lifted = P::PolyBN::spec_lifted_modulus() as int;
    &&& forall|i: int|
        0 <= i < n ==> 2 * #[trigger] negacyclic(c1.ints(), c2.ints(), n, i) <= lifted - 1 && -2 * negacyclic(
            c1.ints(),
            c2.ints(),
            n,
            i,
        ) <= lifted - 1
    &&& forall|i: int|
        0 <= i < n ==> 2 * #[trigger] nega(m1.ints(), m2.ints(), n, i) <= q - 1 && -2 * nega(m1.ints(), m2.ints(), n, i) <= q
            - 1
    &&& forall|i: int|
        0 <= i < n ==> -((q - 1) / 2) <= t * #[trigger] multiplication_noise(f, g, m1, s1, e1, c1, m2, s2, e2, c2, i) - (q
            % t) * (nega(m1.ints(), m2.ints(), n, i) % t) <= (q - 1) / 2
}

/// A sign coefficient and its conversion modulo `t` are congruent to the sign, modulo `q` and
/// modulo `t`.
proof fn lemma_sign_cong<P: YasheConf>(c: int)
    requires
        c == 0 || c == 1 || c == P::spec_modulus() - 1,
    ensures
        c % P::spec_modulus() == (if c == P::spec_modulus() - 1 { -1int } else { c }) % P::spec_modulus(),
        convert_coeff::<P>(c) % (P::spec_t() as int) == (if c == P::spec_modulus() - 1 { -1int } else { c }) % (
        P::spec_t() as int),
{
    P::lemma_conf_valid();
    P::lemma_yashe_conf_valid();
    let q = P::spec_modulus();
    let t = P::spec_t() as int;
    if c == q - 1 {
        lemma_small_mod((q - 1) as nat, q as nat);
        lemma_mod_add_multiples_vanish(-1, q);
        // q - 1 + t wraps to t - 1
        lemma_mod_sub_multiples_vanish(q - 1 + t, q);
        lemma_small_mod((t - 1) as nat, q as nat);
        lemma_small_mod((t - 1) as nat, t as nat);
        lemma_mod_add_multiples_vanish(-1, t);
    } else {
        lemma_small_mod(c as nat, q as nat);
    }
}

/// One product coefficient of two encrypted blocks, decrypted with the square of the private key
/// and read centred on zero modulo `t`, is the count the plaintext blocks give at that
/// coefficient: the signed product, when it fits in `t`.
proof fn lemma_block_coeff_agrees<C: EncodeConf>(
    f: Poly<C::PlainConf>,
    g: Poly<C::PlainConf>,
    tg: Poly<C::PlainConf>,
    private_key: PrivateKey<C::PlainConf>,
    public_key: PublicKey<C::PlainConf>,
    key2: Poly<C::PlainConf>,
    pa: Poly<C::PlainConf>,
    ma: Poly<C::PlainConf>,
    sa: Poly<C::PlainConf>,
    ea: Poly<C::PlainConf>,
    ca: Poly<C::PlainConf>,
    pb: Poly<C::PlainConf>,
    mb: Poly<C::PlainConf>,
    sb: Poly<C::PlainConf>,
    eb: Poly<C::PlainConf>,
    cb: Poly<C::PlainConf>,
    k: int,
) where C::PlainConf: YasheConf
    requires
        is_private_key_of(private_key, f),
        is_public_key_of(public_key, g, tg, private_key),
        key2.is_canonical(),
        key2.ring() == ring_product(private_key.priv_key, private_key.priv_key),
        pa.is_canonical(),
        sign_coeffs(pa),
        ma.is_canonical(),
        forall|i: int| #[trigger] ma.coeff(i) == convert_coeff::<C::PlainConf>(pa.coeff(i)),
        sa.is_canonical(),
        ea.is_canonical(),
        is_encryption(ca, ma, public_key.h, sa, ea),
        pb.is_canonical(),
        sign_coeffs(pb),
        mb.is_canonical(),
        forall|i: int| #[trigger] mb.coeff(i) == convert_coeff::<C::PlainConf>(pb.coeff(i)),
        sb.is_canonical(),
        eb.is_canonical(),
        is_encryption(cb, mb, public_key.h, sb, eb),
        product_decrypts(f, g, ma, sa, ea, ca, mb, sb, eb, cb),
        0 <= k < C::PlainConf::spec_max_poly_degree(),
        2 * signed_product(pa, pb, k) < C::PlainConf::spec_t(),
        -2 * signed_product(pa, pb, k) < C::PlainConf::spec_t(),
        C::PlainConf::spec_t() <= 2 * data_bit_len::<C::EyeConf>(),
        2 * data_bit_len::<C::EyeConf>() + C::PlainConf::spec_t() < 2 * C::PlainConf::spec_modulus(),
    ensures
        coeff_int::<C>(get(ring_mul(pa.ints(), pb.ints(), C::PlainConf::spec_max_poly_degree(), C::PlainConf::spec_modulus()), k))
            == Some(signed_mod_t::<C::PlainConf>(decrypted_product_coeff(ca, cb, key2, k))),
{
    C::PlainConf::lemma_conf_valid();
    C::PlainConf::lemma_yashe_conf_valid();
    let n = C::PlainConf::spec_max_poly_degree();
    let q = C::PlainConf::spec_modulus();
    let t = C::PlainConf::spec_t() as int;
    let sga = signs(pa);
    let sgb = signs(pb);
    let ss = signed_product(pa, pb, k);
    lemma_canonical_facts(pa);
    lemma_canonical_facts(pb);
    lemma_canonical_facts(ma);
    lemma_canonical_facts(mb);
    // both encodings are congruent to the signs: the blocks modulo q, the messages modulo t
    assert forall|i: int|
        #[trigger] get(pa.ints(), i) % q == get(sga, i) % q && get(ma.ints(), i) % t == get(sga, i) % t by {
        assert(ma.coeff(i) == convert_coeff::<C::PlainConf>(pa.coeff(i)));
        lemma_sign_cong::<C::PlainConf>(pa.coeff(i));
        if !(0 <= i < n) {
            assert(pa.coeff(i) == 0);
            assert(ma.coeff(i) == 0);
        }
    }
    assert forall|i: int|
        #[trigger] get(pb.ints(), i) % q == get(sgb, i) % q && get(mb.ints(), i) % t == get(sgb, i) % t by {
        assert(mb.coeff(i) == convert_coeff::<C::PlainConf>(pb.coeff(i)));
        lemma_sign_cong::<C::PlainConf>(pb.coeff(i));
        if !(0 <= i < n) {
            assert(pb.coeff(i) == 0);
            assert(mb.coeff(i) == 0);
        }
    }
    // the plaintext count
    lemma_ring_mul_nega(pa.ints(), pb.ints(), n, q, k);
    lemma_nega_cong(pa.ints(), sga, pb.ints(), sgb, n, q, k);
    let x = get(ring_mul(pa.ints(), pb.ints(), n, q), k);
    assert(x == ss % q);
    if ss >= 0 {
        lemma_small_mod(ss as nat, q as nat);
    } else {
        lemma_fundamental_div_mod_converse(ss, q, -1, ss + q);
    }
    assert(coeff_int::<C>(x) == Some(ss));
    // the decrypted count
    let cs = ciphertext_product(ca, cb);
    assert forall|i: int|
        0 <= i < n implies #[trigger] get(cs, i) == crate::primitives::yashe::scale_coeff::<C::PlainConf>(
        negacyclic(ca.ints(), cb.ints(), n, i),
    ) by {}
    let mm = nega(ma.ints(), mb.ints(), n, k);
    assert(-((q - 1) / 2) <= t * multiplication_noise(f, g, ma, sa, ea, ca, mb, sb, eb, cb, k) - (q % t) * (mm % t) <= (q
        - 1) / 2);
    assert(2 * mm <= q - 1 && -2 * mm <= q - 1);
    lemma_decrypt_mul_coeff(f, g, tg, private_key, public_key, ma, sa, ea, ca, mb, sb, eb, cb, cs, key2, k);
    lemma_ring_mul_nega(ma.ints(), mb.ints(), n, q, k);
    lemma_mod_twice(mm, q);
    if mm >= 0 {
        lemma_small_mod(mm as nat, q as nat);
    } else {
        lemma_fundamental_div_mod_converse(mm, q, -1, mm + q);
    }
    assert(center_lift(mm % q, q) == mm);
    assert(decrypted_product_coeff(ca, cb, key2, k) == mm % t);
    lemma_nega_cong(ma.ints(), sga, mb.ints(), sgb, n, t, k);
    if ss >= 0 {
        lemma_small_mod(ss as nat, t as nat);
    } else {
        lemma_fundamental_div_mod_converse(ss, t, -1, ss + t);
    }
}

/// Every polynomial of `ps` has sign coefficients (see [`sign_coeffs`]).
pub open spec fn all_sign_coeffs<P: PolyConf>(ps: Seq<Poly<P>>) -> bool {
    forall|i: int| 0 <= i < ps.len() ==> #[trigger] sign_coeffs(ps[i])
}

/// `cs` are fresh encryptions under the public key `h` of the blocks `orig` after conversion:
/// `msgs[i]` is `orig[i]` with its negative coefficients converted to work modulo `t`, and
/// `cs[i]` encrypts it with the samples `samples[i]`.
pub open spec fn encrypts_converted<P: YasheConf>(
    cs: Seq<Ciphertext<P>>,
    orig: Seq<Poly<P>>,
    msgs: Seq<Poly<P>>,
    samples: Seq<(Poly<P>, Poly<P>)>,
    h: Poly<P>,
) -> bool {
    &&& cs.len() == orig.len()
    &&& msgs.len() == orig.len()
    &&& samples.len() == orig.len()
    &&& forall|i: int| 0 <= i < orig.len() ==> #[trigger] orig[i].is_canonical()
    &&& forall|i: int| 0 <= i < orig.len() ==> #[trigger] msgs[i].is_canonical()
    &&& forall|i: int, k: int| 0 <= i < orig.len() ==> #[trigger] msgs[i].coeff(k) == convert_coeff::<P>(orig[i].coeff(k))
    &&& forall|i: int| 0 <= i < orig.len() ==> #[trigger] samples[i].0.is_canonical()
    &&& forall|i: int| 0 <= i < orig.len() ==> #[trigger] samples[i].1.is_canonical()
    &&& forall|i: int| 0 <= i < orig.len() ==> #[trigger] is_encryption(cs[i].c, msgs[i], h, samples[i].0, samples[i].1)
}

/// Each product of the encrypted blocks `a[i]` and `b[i]` decrypts to the product of their
/// messages (see [`product_decrypts`]).
pub open spec fn products_decrypt<P: YasheConf>(
    f: Poly<P>,
    g: Poly<P>,
    a: Seq<Ciphertext<P>>,
    ma: Seq<Poly<P>>,
    sa: Seq<(Poly<P>, Poly<P>)>,
    b: Seq<Ciphertext<P>>,
    mb: Seq<Poly<P>>,
    sb: Seq<(Poly<P>, Poly<P>)>,
) -> bool {
    forall|i: int|
        0 <= i < a.len() ==> #[trigger] product_decrypts(f, g, ma[i], sa[i].0, sa[i].1, a[i].c, mb[i], sb[i].0, sb[i].1, b[i].c)
}

/// Every inner product of the blocks `a[i]` and `b[i]`, one for each rotation, fits in the
/// plaintext modulus `t`, centred on zero.
pub open spec fn counts_fit<C: EncodeConf>(a: Seq<Poly<C::PlainConf>>, b: Seq<Poly<C::PlainConf>>) -> bool where C::PlainConf: YasheConf {
    forall|i: int, r: int|
        0 <= i < a.len() && 0 <= r < rotation_comparisons::<C::EyeConf>() ==> 2 * #[trigger] signed_product(
            a[i],
            b[i],
            inner_product_index::<C>(r),
        ) < C::PlainConf::spec_t() && -2 * signed_product(a[i], b[i], inner_product_index::<C>(r)) < C::PlainConf::spec_t()
}

/// The inner product indexes are coefficients of the ring.
proof fn lemma_inner_product_index<C: EncodeConf>(r: int)
    requires
        0 <= r < rotation_comparisons::<C::EyeConf>(),
    ensures
        0 <= inner_product_index::<C>(r) < C::PlainConf::spec_max_poly_degree(),
{
    C::lemma_encode_conf_valid();
    C::EyeConf::lemma_iris_conf_valid();
    let d = num_cols_and_pads::<C>() as int;
    let s = C::spec_rows_per_block() as int;
    vstd::arithmetic::mul::lemma_mul_is_commutative(s, d);
    assert(rotation_comparisons::<C::EyeConf>() <= s * d) by (nonlinear_arith)
        requires
            rotation_comparisons::<C::EyeConf>() <= d,
            s >= 1,
    ;
}

/// The decrypted counts of rotation number `r`, summed over the first `upto` blocks, are the
/// counts the plaintext blocks give.
proof fn lemma_count_sum_agrees<C: EncodeConf>(
    f: Poly<C::PlainConf>,
    g: Poly<C::PlainConf>,
    tg: Poly<C::PlainConf>,
    private_key: PrivateKey<C::PlainConf>,
    public_key: PublicKey<C::PlainConf>,
    key2: Poly<C::PlainConf>,
    a: Seq<Ciphertext<C::PlainConf>>,
    pa: Seq<Poly<C::PlainConf>>,
    ma: Seq<Poly<C::PlainConf>>,
    sa: Seq<(Poly<C::PlainConf>, Poly<C::PlainConf>)>,
    b: Seq<Ciphertext<C::PlainConf>>,
    pb: Seq<Poly<C::PlainConf>>,
    mb: Seq<Poly<C::PlainConf>>,
    sb: Seq<(Poly<C::PlainConf>, Poly<C::PlainConf>)>,
    r: int,
    upto: nat,
) where C::PlainConf: YasheConf
    requires
        is_private_key_of(private_key, f),
        is_public_key_of(public_key, g, tg, private_key),
        key2.is_canonical(),
        key2.ring() == ring_product(private_key.priv_key, private_key.priv_key),
        encrypts_converted(a, pa, ma, sa, public_key.h),
        encrypts_converted(b, pb, mb, sb, public_key.h),
        all_sign_coeffs(pa),
        all_sign_coeffs(pb),
        pa.len() == pb.len(),
        products_decrypt(f, g, a, ma, sa, b, mb, sb),
        counts_fit::<C>(pa, pb),
        C::PlainConf::spec_t() <= 2 * data_bit_len::<C::EyeConf>(),
        2 * data_bit_len::<C::EyeConf>() + C::PlainConf::spec_t() < 2 * C::PlainConf::spec_modulus(),
        0 <= r < rotation_comparisons::<C::EyeConf>(),
        upto <= pa.len(),
    ensures
        encrypted_count_sum::<C>(a, b, key2, r, upto) == count_sum::<C>(pa, pb, r, upto),
    decreases upto,
{
    if upto > 0 {
        let blk = upto - 1;
        lemma_count_sum_agrees::<C>(f, g, tg, private_key, public_key, key2, a, pa, ma, sa, b, pb, mb, sb, r, (upto - 1) as nat);
        lemma_inner_product_index::<C>(r);
        let k = inner_product_index::<C>(r);
        assert(pa[blk].is_canonical());
        assert(sign_coeffs(pa[blk]));
        assert(pb[blk].is_canonical());
        assert(sign_coeffs(pb[blk]));
        assert(ma[blk].is_canonical());
        assert(mb[blk].is_canonical());
        assert(sa[blk].0.is_canonical());
        assert(sa[blk].1.is_canonical());
        assert(sb[blk].0.is_canonical());
        assert(sb[blk].1.is_canonical());
        assert(is_encryption(a[blk].c, ma[blk], public_key.h, sa[blk].0, sa[blk].1));
        assert(is_encryption(b[blk].c, mb[blk], public_key.h, sb[blk].0, sb[blk].1));
        assert(product_decrypts(f, g, ma[blk], sa[blk].0, sa[blk].1, a[blk].c, mb[blk], sb[blk].0, sb[blk].1, b[blk].c));
        assert(2 * signed_product(pa[blk], pb[blk], k) < C::PlainConf::spec_t());
        lemma_block_coeff_agrees::<C>(
            f,
            g,
            tg,
            private_key,
            public_key,
            key2,
            pa[blk],
            ma[blk],
            sa[blk].0,
            sa[blk].1,
            a[blk].c,
            pb[blk],
            mb[blk],
            sb[blk].0,
            sb[blk].1,
            b[blk].c,
            k,
        );
        assert(block_count::<C>(pa, pb, blk, r) == Some(encrypted_block_count::<C>(a, b, key2, blk, r)));
    }
}

/// Matching encrypted encodings is matching the encodings themselves: when the encrypted query
/// and code are fresh encryptions of the converted blocks of `query` and `code` (see
/// `EncryptedPolyQuery::convert_and_encrypt_query` and `EncryptedPolyCode::convert_and_encrypt_code`),
/// whose coefficients are signs, under the keys derived from the samples `f` and `g`, each product of encrypted blocks
/// decrypts to the product of the messages, every inner product fits in `t` centred on zero,
/// and `t` lies between twice the data length and `2 q` less twice the data length, then
/// decrypting with the square of the private key `key2` (see `EncryptedPolyQuery::is_match`)
/// matches exactly when the plaintext encodings match (see `PolyQuery::is_match`).
pub proof fn lemma_encrypted_match_agrees<C: EncodeConf>(
    f: Poly<C::PlainConf>,
    g: Poly<C::PlainConf>,
    tg: Poly<C::PlainConf>,
    private_key: PrivateKey<C::PlainConf>,
    public_key: PublicKey<C::PlainConf>,
    key2: Poly<C::PlainConf>,
    query: PolyQuery<C>,
    code: PolyCode<C>,
    enc_query: EncryptedPolyQuery<C>,
    enc_code: EncryptedPolyCode<C>,
    query_data_msgs: Seq<Poly<C::PlainConf>>,
    query_data_samples: Seq<(Poly<C::PlainConf>, Poly<C::PlainConf>)>,
    query_mask_msgs: Seq<Poly<C::PlainConf>>,
    query_mask_samples: Seq<(Poly<C::PlainConf>, Poly<C::PlainConf>)>,
    code_data_msgs: Seq<Poly<C::PlainConf>>,
    code_data_samples: Seq<(Poly<C::PlainConf>, Poly<C::PlainConf>)>,
    code_mask_msgs: Seq<Poly<C::PlainConf>>,
    code_mask_samples: Seq<(Poly<C::PlainConf>, Poly<C::PlainConf>)>,
) where C::PlainConf: YasheConf
    requires
        is_private_key_of(private_key, f),
        is_public_key_of(public_key, g, tg, private_key),
        key2.is_canonical(),
        key2.ring() == ring_product(private_key.priv_key, private_key.priv_key),
        encrypts_converted(enc_query.data@, query.polys@, query_data_msgs, query_data_samples, public_key.h),
        encrypts_converted(enc_query.masks@, query.masks@, query_mask_msgs, query_mask_samples, public_key.h),
        encrypts_converted(enc_code.data@, code.polys@, code_data_msgs, code_data_samples, public_key.h),
        encrypts_converted(enc_code.masks@, code.masks@, code_mask_msgs, code_mask_samples, public_key.h),
        all_sign_coeffs(query.polys@),
        all_sign_coeffs(query.masks@),
        all_sign_coeffs(code.polys@),
        all_sign_coeffs(code.masks@),
        query.polys@.len() == code.polys@.len(),
        query.masks@.len() == code.masks@.len(),
        products_decrypt(
            f,
            g,
            enc_query.data@,
            query_data_msgs,
            query_data_samples,
            enc_code.data@,
            code_data_msgs,
            code_data_samples,
        ),
        products_decrypt(
            f,
            g,
            enc_query.masks@,
            query_mask_msgs,
            query_mask_samples,
            enc_code.masks@,
            code_mask_msgs,
            code_mask_samples,
        ),
        counts_fit::<C>(query.polys@, code.polys@),
        counts_fit::<C>(query.masks@, code.masks@),
        C::PlainConf::spec_t() <= 2 * data_bit_len::<C::EyeConf>(),
        2 * data_bit_len::<C::EyeConf>() + C::PlainConf::spec_t() < 2 * C::PlainConf::spec_modulus(),
    ensures
        encrypted_match::<C>(enc_query, enc_code, key2) == encoded_match::<C>(query.polys@, code.polys@, query.masks@, code.masks@),
{
    let rc = rotation_comparisons::<C::EyeConf>() as int;
    assert forall|r: int| 0 <= r < rc implies #[trigger] encrypted_rotation_matches::<C>(enc_query, enc_code, key2, r)
        == encoded_rotation_matches::<C>(query.polys@, code.polys@, query.masks@, code.masks@, r) by {
        lemma_count_sum_agrees::<C>(
            f,
            g,
            tg,
            private_key,
            public_key,
            key2,
            enc_query.data@,
            query.polys@,
            query_data_msgs,
            query_data_samples,
            enc_code.data@,
            code.polys@,
            code_data_msgs,
            code_data_samples,
            r,
            query.polys@.len(),
        );
        lemma_count_sum_agrees::<C>(
            f,
            g,
            tg,
            private_key,
            public_key,
            key2,
            enc_query.masks@,
            query.masks@,
            query_mask_msgs,
            query_mask_samples,
            enc_code.masks@,
            code.masks@,
            code_mask_msgs,
            code_mask_samples,
            r,
            query.masks@.len(),
        );
    }
    if encrypted_match::<C>(enc_query, enc_code, key2) {
        let r = choose|r: int| 0 <= r < rc && #[trigger] encrypted_rotation_matches::<C>(enc_query, enc_code, key2, r);
        assert(encoded_rotation_matches::<C>(query.polys@, code.polys@, query.masks@, code.masks@, r));
    }
    if encoded_match::<C>(query.polys@, code.polys@, query.masks@, code.masks@) {
        let r = choose|r: int| 0 <= r < rc && #[trigger] encoded_rotation_matches::<C>(query.polys@, code.polys@, query.masks@, code.masks@, r);
        assert(encrypted_rotation_matches::<C>(enc_query, enc_code, key2, r));
    }
}

/// The blocks and masks of an encoding have sign coefficients.
proof fn lemma_encoding_signs<C: EncodeConf>(
    polys: Seq<Poly<C::PlainConf>>,
    masks: Seq<Poly<C::PlainConf>>,
    value: Seq<bool>,
    mask: Seq<bool>,
    storage: bool,
)
    requires
        encodes_all::<C>(polys, masks, value, mask, storage),
    ensures
        all_sign_coeffs(polys),
        all_sign_coeffs(masks),
{
    assert forall|b: int| 0 <= b < polys.len() implies #[trigger] sign_coeffs(polys[b]) by {
        lemma_block_coeff_values::<C>(polys[b], value, mask, b * C::spec_rows_per_block(), storage);
    }
    assert forall|b: int| 0 <= b < masks.len() implies #[trigger] sign_coeffs(masks[b]) by {
        assert forall|i: int| #![trigger masks[b].coeff(i)] masks[b].coeff(i) == 0 || masks[b].coeff(i) == 1 by {
            assert(masks[b].coeff(i) == if polys[b].coeff(i) == 0 { 0int } else { 1int });
        }
    }
}

/// Matching encrypted iris codes is matching the iris codes themselves: when `query` encodes a
/// new iris code and mask, `code` encodes a stored iris code and mask, the encrypted query and
/// code are fresh encryptions of their converted blocks, each product of encrypted blocks
/// decrypts to the product of the messages, every inner product fits in `t` centred on zero,
/// `t` lies between twice the data length and `2 q` less twice the data length, and `q` exceeds
/// the data length plus the bits of one block, then decrypting with the square of the private
/// key `key2` matches exactly when the iris codes match.
pub proof fn lemma_encrypted_match_iris<C: EncodeConf>(
    f: Poly<C::PlainConf>,
    g: Poly<C::PlainConf>,
    tg: Poly<C::PlainConf>,
    private_key: PrivateKey<C::PlainConf>,
    public_key: PublicKey<C::PlainConf>,
    key2: Poly<C::PlainConf>,
    query: PolyQuery<C>,
    code: PolyCode<C>,
    enc_query: EncryptedPolyQuery<C>,
    enc_code: EncryptedPolyCode<C>,
    query_data_msgs: Seq<Poly<C::PlainConf>>,
    query_data_samples: Seq<(Poly<C::PlainConf>, Poly<C::PlainConf>)>,
    query_mask_msgs: Seq<Poly<C::PlainConf>>,
    query_mask_samples: Seq<(Poly<C::PlainConf>, Poly<C::PlainConf>)>,
    code_data_msgs: Seq<Poly<C::PlainConf>>,
    code_data_samples: Seq<(Poly<C::PlainConf>, Poly<C::PlainConf>)>,
    code_mask_msgs: Seq<Poly<C::PlainConf>>,
    code_mask_samples: Seq<(Poly<C::PlainConf>, Poly<C::PlainConf>)>,
    eye_new: Seq<bool>,
    mask_new: Seq<bool>,
    eye_store: Seq<bool>,
    mask_store: Seq<bool>,
) where C::PlainConf: YasheConf
    requires
        eye_new.len() == data_bit_len::<C::EyeConf>(),
        mask_new.len() == data_bit_len::<C::EyeConf>(),
        eye_store.len() == data_bit_len::<C::EyeConf>(),
        mask_store.len() == data_bit_len::<C::EyeConf>(),
        encodes_all::<C>(query.polys@, query.masks@, eye_new, mask_new, false),
        encodes_all::<C>(code.polys@, code.masks@, eye_store, mask_store, true),
        C::PlainConf::spec_modulus() > data_bit_len::<C::EyeConf>() + C::spec_rows_per_block() * C::EyeConf::spec_columns(),
        is_private_key_of(private_key, f),
        is_public_key_of(public_key, g, tg, private_key),
        key2.is_canonical(),
        key2.ring() == ring_product(private_key.priv_key, private_key.priv_key),
        encrypts_converted(enc_query.data@, query.polys@, query_data_msgs, query_data_samples, public_key.h),
        encrypts_converted(enc_query.masks@, query.masks@, query_mask_msgs, query_mask_samples, public_key.h),
        encrypts_converted(enc_code.data@, code.polys@, code_data_msgs, code_data_samples, public_key.h),
        encrypts_converted(enc_code.masks@, code.masks@, code_mask_msgs, code_mask_samples, public_key.h),
        products_decrypt(
            f,
            g,
            enc_query.data@,
            query_data_msgs,
            query_data_samples,
            enc_code.data@,
            code_data_msgs,
            code_data_samples,
        ),
        products_decrypt(
            f,
            g,
            enc_query.masks@,
            query_mask_msgs,
            query_mask_samples,
            enc_code.masks@,
            code_mask_msgs,
            code_mask_samples,
        ),
        counts_fit::<C>(query.polys@, code.polys@),
        counts_fit::<C>(query.masks@, code.masks@),
        C::PlainConf::spec_t() <= 2 * data_bit_len::<C::EyeConf>(),
        2 * data_bit_len::<C::EyeConf>() + C::PlainConf::spec_t() < 2 * C::PlainConf::spec_modulus(),
    ensures
        encrypted_match::<C>(enc_query, enc_code, key2) == iris_match::<C::EyeConf>(eye_new, mask_new, eye_store, mask_store),
{
    lemma_encoding_signs::<C>(query.polys@, query.masks@, eye_new, mask_new, false);
    lemma_encoding_signs::<C>(code.polys@, code.masks@, eye_store, mask_store, true);
    lemma_encoded_match_agrees::<C>(query, code, eye_new, mask_new, eye_store, mask_store);
    lemma_encrypted_match_agrees::<C>(
        f,
        g,
        tg,
        private_key,
        public_key,
        key2,
        query,
        code,
        enc_query,
        enc_code,
        query_data_msgs,
        query_data_samples,
        query_mask_msgs,
        query_mask_samples,
        code_data_msgs,
        code_data_samples,
        code_mask_msgs,
        code_mask_samples,
    );
}

} // verus!
