//! Correctness of YASHE multiplication: decrypting the product of two fresh encryptions with the
//! square of the private key gives the product of the messages, whenever the noise is small.
use vstd::arithmetic::div_mod::*;
use vstd::arithmetic::mul::*;
use vstd::prelude::*;

use crate::primitives::poly::algebra::{get, lemma_negacyclic_sum, negacyclic, negacyclic_term, ring_mul};
use crate::primitives::poly::conf::PolyConf;
use crate::primitives::poly::ring::{
    lemma_nega_add_left, lemma_nega_assoc, lemma_nega_comm, lemma_nega_cong, lemma_nega_scale_left, lemma_ring_mul_nega,
    nega, nega_seq, nega_terms,
};
use crate::primitives::poly::Poly;
use crate::primitives::wide::trunc_div;
use crate::primitives::yashe::conf::{LiftConf, YasheConf};
use crate::primitives::yashe::correctness::{
    centered, decryption_noise, is_private_key_of, is_public_key_of, lemma_canonical_facts, lemma_centered_cong,
    lemma_decode_noise, lemma_encryption_times_key, lemma_mod_lin,
};
use crate::primitives::yashe::{
    center_lift, decode, delta, is_encryption, plain_mul_coeff, ring_product, scale_coeff, PrivateKey, PublicKey,
};

verus! {

/// Ciphertext multiplication's scaling of one exact product coefficient `p`, before the
/// reduction modulo `q`: `t p / q`, rounded away from zero.
pub open spec fn scaled_raw<C: YasheConf>(p: int) -> int {
    let q = C::spec_modulus();
    let x = p * C::spec_t();
    let y = if x > 0 {
        x + (q - 1) / 2
    } else {
        x - (q - 1) / 2
    };
    trunc_div(y, q)
}

/// When the exact product coefficient does not wrap around the lifted modulus, scaling is
/// `t p / q` rounded, reduced modulo `q`.
pub proof fn lemma_scale_exact<C: YasheConf>(p: int)
    requires
        2 * p <= C::PolyBN::spec_lifted_modulus() - 1,
        2 * (-p) <= C::PolyBN::spec_lifted_modulus() - 1,
    ensures
        scale_coeff::<C>(p) == scaled_raw::<C>(p) % C::spec_modulus(),
{
    C::lemma_conf_valid();
    C::lemma_yashe_conf_valid();
    let ql = C::PolyBN::spec_lifted_modulus() as int;
    let q = C::spec_modulus();
    let t = C::spec_t() as int;
    // no wrap around the lifted modulus
    if p >= 0 {
        lemma_small_mod(p as nat, ql as nat);
    } else {
        lemma_fundamental_div_mod_converse(p, ql, -1, p + ql);
    }
    assert(center_lift(p, ql) == p);
}

/// The product is linear in its left factor: `(d a + b + q c) y = d (a y) + b y + q (c y)`.
proof fn lemma_nega_left3(u: Seq<int>, a: Seq<int>, b: Seq<int>, c: Seq<int>, d: int, q: int, y: Seq<int>, n: nat, k: int)
    requires
        forall|j: int| #[trigger] get(u, j) == d * get(a, j) + get(b, j) + q * get(c, j),
    ensures
        nega(u, y, n, k) == d * nega(a, y, n, k) + nega(b, y, n, k) + q * nega(c, y, n, k),
{
    let da = Seq::new(a.len(), |j: int| d * a[j]);
    let qc = Seq::new(c.len(), |j: int| q * c[j]);
    let s1 = Seq::new(if da.len() < b.len() { b.len() } else { da.len() }, |j: int| get(da, j) + get(b, j));
    assert forall|j: int| #[trigger] get(da, j) == d * get(a, j) by {}
    assert forall|j: int| #[trigger] get(qc, j) == q * get(c, j) by {}
    assert forall|j: int| #[trigger] get(s1, j) == get(da, j) + get(b, j) by {}
    assert forall|j: int| #[trigger] get(u, j) == get(s1, j) + get(qc, j) by {}
    lemma_nega_add_left(u, s1, qc, y, n, k);
    lemma_nega_add_left(s1, da, b, y, n, k);
    lemma_nega_scale_left(da, a, d, y, n, k);
    lemma_nega_scale_left(qc, c, q, y, n, k);
}

/// The integer identity behind [`lemma_nega_expand`].
proof fn lemma_expand_ints(
    u: int,
    xa: int,
    xb: int,
    xc: int,
    aa: int,
    ab: int,
    ac: int,
    ba: int,
    bb: int,
    bc: int,
    ca: int,
    cb: int,
    cc: int,
    d: int,
    q: int,
)
    requires
        u == d * xa + xb + q * xc,
        xa == d * aa + ab + q * ac,
        xb == d * ba + bb + q * bc,
        xc == d * ca + cb + q * cc,
    ensures
        u == d * d * aa + d * ab + d * q * ac + d * ba + bb + q * bc + q * d * ca + q * cb + q * q * cc,
{
    lemma_mul_is_distributive_add(d, d * aa + ab, q * ac);
    lemma_mul_is_distributive_add(d, d * aa, ab);
    lemma_mul_is_associative(d, d, aa);
    lemma_mul_is_associative(d, q, ac);
    lemma_mul_is_distributive_add(q, d * ca + cb, q * cc);
    lemma_mul_is_distributive_add(q, d * ca, cb);
    lemma_mul_is_associative(q, d, ca);
    lemma_mul_is_associative(q, q, cc);
}

/// Expanding the product of `d a1 + b1 + q c1` and `d a2 + b2 + q c2` into nine products.
pub proof fn lemma_nega_expand(
    a1: Seq<int>,
    b1: Seq<int>,
    c1: Seq<int>,
    u1: Seq<int>,
    a2: Seq<int>,
    b2: Seq<int>,
    c2: Seq<int>,
    u2: Seq<int>,
    d: int,
    q: int,
    n: nat,
    k: int,
)
    requires
        0 <= k < n,
        forall|j: int| #[trigger] get(u1, j) == d * get(a1, j) + get(b1, j) + q * get(c1, j),
        forall|j: int| #[trigger] get(u2, j) == d * get(a2, j) + get(b2, j) + q * get(c2, j),
    ensures
        nega(u1, u2, n, k) == d * d * nega(a1, a2, n, k) + d * nega(a1, b2, n, k) + d * q * nega(a1, c2, n, k) + d * nega(
            b1,
            a2,
            n,
            k,
        ) + nega(b1, b2, n, k) + q * nega(b1, c2, n, k) + q * d * nega(c1, a2, n, k) + q * nega(c1, b2, n, k) + q * q
            * nega(c1, c2, n, k),
{
    lemma_nega_left3(u1, a1, b1, c1, d, q, u2, n, k);
    // each left part against the right factor, by commuting
    lemma_nega_comm(a1, u2, n, k);
    lemma_nega_left3(u2, a2, b2, c2, d, q, a1, n, k);
    lemma_nega_comm(a2, a1, n, k);
    lemma_nega_comm(b2, a1, n, k);
    lemma_nega_comm(c2, a1, n, k);
    lemma_nega_comm(b1, u2, n, k);
    lemma_nega_left3(u2, a2, b2, c2, d, q, b1, n, k);
    lemma_nega_comm(a2, b1, n, k);
    lemma_nega_comm(b2, b1, n, k);
    lemma_nega_comm(c2, b1, n, k);
    lemma_nega_comm(c1, u2, n, k);
    lemma_nega_left3(u2, a2, b2, c2, d, q, c1, n, k);
    lemma_nega_comm(a2, c1, n, k);
    lemma_nega_comm(b2, c1, n, k);
    lemma_nega_comm(c2, c1, n, k);
    let xa = nega(a1, u2, n, k);
    let xb = nega(b1, u2, n, k);
    let xc = nega(c1, u2, n, k);
    let aa = nega(a1, a2, n, k);
    let ab = nega(a1, b2, n, k);
    let ac = nega(a1, c2, n, k);
    let ba = nega(b1, a2, n, k);
    let bb = nega(b1, b2, n, k);
    let bc = nega(b1, c2, n, k);
    let ca = nega(c1, a2, n, k);
    let cb = nega(c1, b2, n, k);
    let cc = nega(c1, c2, n, k);
    lemma_expand_ints(nega(u1, u2, n, k), xa, xb, xc, aa, ab, ac, ba, bb, bc, ca, cb, cc, d, q);
}

/// Regrouping `(c1 c2)(f f)` as `(c1 f)(c2 f)`.
pub proof fn lemma_regroup(c1: Seq<int>, c2: Seq<int>, f: Seq<int>, n: nat, k: int)
    requires
        0 <= k < n,
    ensures
        nega(nega_seq(c1, c2, n), nega_seq(f, f, n), n, k) == nega(nega_seq(c1, f, n), nega_seq(c2, f, n), n, k),
{
    let u2 = nega_seq(c2, f, n);
    lemma_nega_assoc(c1, c2, nega_seq(f, f, n), n, k);
    assert forall|j: int| 0 <= j < n implies #[trigger] nega_seq(c2, nega_seq(f, f, n), n)[j] == nega_seq(f, u2, n)[j] by {
        lemma_nega_assoc(c2, f, f, n, j);
        lemma_nega_comm(u2, f, n, j);
    }
    assert(nega_seq(c2, nega_seq(f, f, n), n) =~= nega_seq(f, u2, n));
    lemma_nega_assoc(c1, f, u2, n, k);
}

/// The private key `t f + 1` with the sample `f` centred on zero, so that its coefficients are
/// small.
pub open spec fn small_key<C: YasheConf>(f: Poly<C>) -> Seq<int> {
    Seq::new(
        C::spec_max_poly_degree(),
        |i: int| C::spec_t() * get(centered(f), i) + if i == 0 {
            1int
        } else {
            0int
        },
    )
}

/// The coefficients of [`decryption_noise`].
pub open spec fn noise_seq<C: YasheConf>(f: Poly<C>, g: Poly<C>, s: Poly<C>, e: Poly<C>, m: Poly<C>) -> Seq<int> {
    Seq::new(C::spec_max_poly_degree(), |k: int| decryption_noise(f, g, s, e, m, k))
}

/// The multiples of `q` that the stored ciphertext `c` of `m` loses against the exact product
/// with the small key: `(c (t f + 1) - (q / t) m - v) / q`, `v` being the decryption noise.
pub open spec fn key_wraps<C: YasheConf>(f: Poly<C>, g: Poly<C>, s: Poly<C>, e: Poly<C>, m: Poly<C>, c: Poly<C>) -> Seq<int> {
    Seq::new(
        C::spec_max_poly_degree(),
        |k: int|
            (nega(c.ints(), small_key(f), C::spec_max_poly_degree(), k) - delta::<C>() * m.coeff(k) - decryption_noise(
                f,
                g,
                s,
                e,
                m,
                k,
            )) / C::spec_modulus(),
    )
}

/// The stored private key is the small key, modulo `q`.
proof fn lemma_private_key_cong<C: YasheConf>(private_key: PrivateKey<C>, f: Poly<C>)
    requires
        is_private_key_of(private_key, f),
    ensures
        forall|i: int| #[trigger] get(private_key.priv_key.ints(), i) % C::spec_modulus() == get(small_key(f), i) % C::spec_modulus(),
{
    C::lemma_conf_valid();
    let q = C::spec_modulus();
    let t = C::spec_t() as int;
    lemma_canonical_facts(private_key.priv_key);
    lemma_canonical_facts(f);
    lemma_centered_cong(f);
    assert forall|i: int| #[trigger] get(private_key.priv_key.ints(), i) % q == get(small_key(f), i) % q by {
        if 0 <= i < C::spec_max_poly_degree() {
            let y = if i == 0 { 1int } else { 0int };
            assert(private_key.priv_key.coeff(i) == (t * f.coeff(i) + y) % q);
            lemma_mod_twice(t * f.coeff(i) + y, q);
            assert(get(centered(f), i) % q == get(f.ints(), i) % q);
            lemma_mod_lin(f.coeff(i), get(centered(f), i), 1, 1, t, y, q);
        }
    }
}

/// A fresh encryption times the small key is `(q / t) m` plus the decryption noise plus the
/// multiples of `q` of [`key_wraps`], exactly.
pub(crate) proof fn lemma_key_product<C: YasheConf>(
    f: Poly<C>,
    g: Poly<C>,
    tg: Poly<C>,
    private_key: PrivateKey<C>,
    public_key: PublicKey<C>,
    m: Poly<C>,
    s: Poly<C>,
    e: Poly<C>,
    c: Poly<C>,
)
    requires
        is_private_key_of(private_key, f),
        is_public_key_of(public_key, g, tg, private_key),
        m.is_canonical(),
        s.is_canonical(),
        e.is_canonical(),
        is_encryption(c, m, public_key.h, s, e),
    ensures
        forall|j: int|
            #[trigger] get(nega_seq(c.ints(), small_key(f), C::spec_max_poly_degree()), j) == delta::<C>() * get(m.ints(), j)
                + get(noise_seq(f, g, s, e, m), j) + C::spec_modulus() * get(key_wraps(f, g, s, e, m, c), j),
{
    C::lemma_conf_valid();
    C::lemma_yashe_conf_valid();
    let n = C::spec_max_poly_degree();
    let q = C::spec_modulus();
    let d = delta::<C>();
    let cc = c.ints();
    let ff = private_key.priv_key.ints();
    let key = small_key(f);
    lemma_encryption_times_key(f, g, tg, private_key, public_key, m, s, e, c);
    lemma_canonical_facts(c);
    lemma_canonical_facts(m);
    lemma_canonical_facts(private_key.priv_key);
    lemma_private_key_cong(private_key, f);
    assert forall|i: int| #[trigger] get(cc, i) % q == get(cc, i) % q by {}
    assert forall|j: int|
        #[trigger] get(nega_seq(cc, key, n), j) == d * get(m.ints(), j) + get(noise_seq(f, g, s, e, m), j) + q * get(
            key_wraps(f, g, s, e, m, c),
            j,
        ) by {
        if 0 <= j < n {
            let u = nega(cc, key, n, j);
            let w = d * m.coeff(j) + decryption_noise(f, g, s, e, m, j);
            lemma_ring_mul_nega(cc, ff, n, q, j);
            lemma_nega_cong(cc, cc, ff, key, n, q, j);
            assert(get(ring_product(c, private_key.priv_key), j) == w % q);
            lemma_mod_twice(nega(cc, ff, n, j), q);
            assert(u % q == w % q);
            lemma_sub_mod_noop(u, w, q);
            lemma_fundamental_div_mod(u - w, q);
            assert(get(key_wraps(f, g, s, e, m, c), j) == (u - w) / q);
        }
    }
}

/// The exact product of the ciphertexts `c1`, `c2`, scaled by `t / q` and rounded, before the
/// reduction modulo `q` (see [`scaled_raw`]).
pub open spec fn scaled_seq<C: YasheConf>(c1: Poly<C>, c2: Poly<C>) -> Seq<int> {
    Seq::new(
        C::spec_max_poly_degree(),
        |i: int| scaled_raw::<C>(nega(c1.ints(), c2.ints(), C::spec_max_poly_degree(), i)),
    )
}

/// The rounding error of the scaling: `q` times the scaled product, less `t` times the exact one.
pub open spec fn rounding_seq<C: YasheConf>(c1: Poly<C>, c2: Poly<C>) -> Seq<int> {
    Seq::new(
        C::spec_max_poly_degree(),
        |i: int|
            C::spec_modulus() * scaled_raw::<C>(nega(c1.ints(), c2.ints(), C::spec_max_poly_degree(), i)) - C::spec_t()
                * nega(c1.ints(), c2.ints(), C::spec_max_poly_degree(), i),
    )
}

/// The square of the private key, stored reduced, is the square of the small key modulo `q`.
proof fn lemma_key_square_cong<C: YasheConf>(private_key: PrivateKey<C>, f: Poly<C>, key2: Poly<C>)
    requires
        is_private_key_of(private_key, f),
        key2.is_canonical(),
        key2.ring() == ring_product(private_key.priv_key, private_key.priv_key),
    ensures
        forall|i: int|
            #[trigger] get(key2.ints(), i) % C::spec_modulus() == get(
                nega_seq(small_key(f), small_key(f), C::spec_max_poly_degree()),
                i,
            ) % C::spec_modulus(),
{
    C::lemma_conf_valid();
    let n = C::spec_max_poly_degree();
    let q = C::spec_modulus();
    let ff = private_key.priv_key.ints();
    let key = small_key(f);
    lemma_canonical_facts(key2);
    lemma_canonical_facts(private_key.priv_key);
    lemma_private_key_cong(private_key, f);
    assert forall|i: int| #[trigger] get(key2.ints(), i) % q == get(nega_seq(key, key, n), i) % q by {
        if 0 <= i < n {
            assert(key2.ring()[i] == key2.coeff(i));
            lemma_ring_mul_nega(ff, ff, n, q, i);
            lemma_mod_twice(nega(ff, ff, n, i), q);
            lemma_nega_cong(ff, key, ff, key, n, q, i);
        }
    }
}

/// When no exact product coefficient wraps around the lifted modulus, the product ciphertext
/// is the scaled product modulo `q`.
proof fn lemma_product_cong<C: YasheConf>(c1: Poly<C>, c2: Poly<C>, cs: Seq<int>)
    requires
        c1.is_canonical(),
        c2.is_canonical(),
        cs.len() <= C::spec_max_poly_degree(),
        forall|i: int|
            0 <= i < C::spec_max_poly_degree() ==> #[trigger] get(cs, i) == scale_coeff::<C>(
                negacyclic(c1.ints(), c2.ints(), C::spec_max_poly_degree(), i),
            ),
        forall|i: int|
            0 <= i < C::spec_max_poly_degree() ==> 2 * #[trigger] negacyclic(c1.ints(), c2.ints(), C::spec_max_poly_degree(), i)
                <= C::PolyBN::spec_lifted_modulus() - 1 && -2 * negacyclic(c1.ints(), c2.ints(), C::spec_max_poly_degree(), i)
                <= C::PolyBN::spec_lifted_modulus() - 1,
    ensures
        forall|i: int| #[trigger] get(cs, i) % C::spec_modulus() == get(scaled_seq(c1, c2), i) % C::spec_modulus(),
{
    C::lemma_conf_valid();
    let n = C::spec_max_poly_degree();
    let q = C::spec_modulus();
    lemma_canonical_facts(c1);
    lemma_canonical_facts(c2);
    assert forall|i: int| #[trigger] get(cs, i) % q == get(scaled_seq(c1, c2), i) % q by {
        if 0 <= i < n {
            let p = negacyclic(c1.ints(), c2.ints(), n, i);
            lemma_negacyclic_sum(c1.ints(), c2.ints(), n, i);
            assert(nega_terms(c1.ints(), c2.ints(), n, i) =~= (|j: int| negacyclic_term(c1.ints(), c2.ints(), n, i, j)));
            assert(p == nega(c1.ints(), c2.ints(), n, i));
            lemma_scale_exact::<C>(p);
            assert(get(cs, i) == scaled_raw::<C>(p) % q);
            lemma_mod_twice(scaled_raw::<C>(p), q);
            assert(get(scaled_seq(c1, c2), i) == scaled_raw::<C>(p));
        }
    }
}

/// The noise in coefficient `k` of the product of the fresh encryptions `c1` of `m1` and `c2` of
/// `m2`, multiplied by the square of the private key, from the decryption noises `v1`, `v2`, the
/// dropped multiples `w1`, `w2` of [`key_wraps`], the rounding of [`rounding_seq`] and the exact
/// message product `m1 m2`: with `r = q mod t`,
/// `m1 v2 + v1 m2 - r (m1 w2 + w1 m2) + t (v1 w2 + w1 v2) + e - r floor(m1 m2 / t)`, where `e` is
/// `(t v1 v2 - r (q / t) m1 m2 - r (m1 v2 + v1 m2) + rounding (t f + 1)^2) / q`.
pub open spec fn multiplication_noise<C: YasheConf>(
    f: Poly<C>,
    g: Poly<C>,
    m1: Poly<C>,
    s1: Poly<C>,
    e1: Poly<C>,
    c1: Poly<C>,
    m2: Poly<C>,
    s2: Poly<C>,
    e2: Poly<C>,
    c2: Poly<C>,
    k: int,
) -> int {
    product_noise(
        f,
        m1.ints(),
        noise_seq(f, g, s1, e1, m1),
        key_wraps(f, g, s1, e1, m1, c1),
        c1,
        m2.ints(),
        noise_seq(f, g, s2, e2, m2),
        key_wraps(f, g, s2, e2, m2, c2),
        c2,
        k,
    )
}

/// The noise in coefficient `k` of the product of ciphertexts `c1`, `c2` multiplied by the
/// square of the private key, when each `cj` times the small key is exactly
/// `(q / t) mj + vj + q wj` for integer sequences `mj`, `vj`, `wj`: with `r = q mod t`,
/// `m1 v2 + v1 m2 - r (m1 w2 + w1 m2) + t (v1 w2 + w1 v2) + e - r floor(m1 m2 / t)`, where `e` is
/// `(t v1 v2 - r (q / t) m1 m2 - r (m1 v2 + v1 m2) + rounding (t f + 1)^2) / q`.
pub open spec fn product_noise<C: YasheConf>(
    f: Poly<C>,
    m1: Seq<int>,
    v1: Seq<int>,
    w1: Seq<int>,
    c1: Poly<C>,
    m2: Seq<int>,
    v2: Seq<int>,
    w2: Seq<int>,
    c2: Poly<C>,
    k: int,
) -> int {
    let n = C::spec_max_poly_degree();
    let q = C::spec_modulus();
    let t = C::spec_t() as int;
    let r = q % t;
    let mm = nega(m1, m2, n, k);
    let a = nega(m1, v2, n, k) + nega(v1, m2, n, k);
    let b = nega(m1, w2, n, k) + nega(w1, m2, n, k);
    let w = nega(v1, w2, n, k) + nega(w1, v2, n, k);
    let rounding = nega(rounding_seq(c1, c2), nega_seq(small_key(f), small_key(f), n), n, k);
    let e = (t * nega(v1, v2, n, k) - r * delta::<C>() * mm - r * a + rounding) / q;
    a - r * b + t * w + e - r * (mm / t)
}

/// The integer identity behind [`lemma_decrypt_mul`]: `q x = t pf + dd`, with `pf` the expanded
/// product, leaves `x = d (m mod t) + noise` modulo `q`.
proof fn lemma_mul_noise_ints(
    x: int,
    pf: int,
    dd: int,
    q: int,
    t: int,
    d: int,
    r: int,
    m: int,
    ab: int,
    ac: int,
    ba: int,
    bb: int,
    bc: int,
    ca: int,
    cb: int,
    cc: int,
    e: int,
    mq: int,
    mr: int,
    noise: int,
)
    requires
        q > 0,
        q == t * d + r,
        q * x == t * pf + dd,
        pf == d * d * m + d * ab + d * q * ac + d * ba + bb + q * bc + q * d * ca + q * cb + q * q * cc,
        e == (t * bb - r * d * m - r * (ab + ba) + dd) / q,
        m == t * mq + mr,
        noise == (ab + ba) - r * (ac + ca) + t * (bc + cb) + e - r * mq,
    ensures
        x == d * mr + noise + q * ((ac + ca) + t * cc + mq),
{
    let g1 = d * m + ab + q * ac + ba;
    let g2 = bc + d * ca + cb + q * cc;
    assert(pf == d * g1 + bb + q * g2) by (nonlinear_arith)
        requires
            pf == d * d * m + d * ab + d * q * ac + d * ba + bb + q * bc + q * d * ca + q * cb + q * q * cc,
            g1 == d * m + ab + q * ac + ba,
            g2 == bc + d * ca + cb + q * cc,
    ;
    assert(t * pf == t * (d * g1) + t * bb + t * (q * g2)) by (nonlinear_arith)
        requires
            pf == d * g1 + bb + q * g2,
    ;
    assert(t * (d * g1) == q * g1 - r * g1) by (nonlinear_arith)
        requires
            q == t * d + r,
    ;
    assert(t * (q * g2) == q * (t * g2)) by (nonlinear_arith);
    assert(r * g1 == r * d * m + r * (ab + ba) + q * (r * ac)) by (nonlinear_arith)
        requires
            g1 == d * m + ab + q * ac + ba,
    ;
    let y = g1 + t * g2 - r * ac;
    let z = t * bb - r * d * m - r * (ab + ba) + dd;
    assert(q * y == q * g1 + q * (t * g2) - q * (r * ac)) by (nonlinear_arith)
        requires
            y == g1 + t * g2 - r * ac,
    ;
    assert(q * x == q * y + z);
    assert(z == q * (x - y)) by (nonlinear_arith)
        requires
            q * x == q * y + z,
    ;
    lemma_div_multiples_vanish(x - y, q);
    assert(e == x - y);
    assert(d * m == q * mq - r * mq + d * mr) by (nonlinear_arith)
        requires
            m == t * mq + mr,
            q == t * d + r,
    ;
    assert(t * g2 == t * (bc + cb) + q * ca - r * ca + q * (t * cc)) by (nonlinear_arith)
        requires
            g2 == bc + d * ca + cb + q * cc,
            q == t * d + r,
    ;
    assert(q * ((ac + ca) + t * cc + mq) == q * ac + q * ca + q * (t * cc) + q * mq) by (nonlinear_arith);
    assert(r * (ac + ca) == r * ac + r * ca) by (nonlinear_arith);
}

/// The product of the canonical ciphertexts `c1`, `c2`, scaled (`cs`) and multiplied by the
/// square of the private key, decodes in coefficient `k` to the exact product of the integer
/// messages `m1`, `m2` modulo `t`, when each `cj` times the small key is exactly
/// `(q / t) mj + vj + q wj`, nothing wraps around the lifted modulus, and the noise of
/// [`product_noise`] is small.
pub proof fn lemma_decrypt_product<C: YasheConf>(
    f: Poly<C>,
    private_key: PrivateKey<C>,
    key2: Poly<C>,
    m1: Seq<int>,
    v1: Seq<int>,
    w1: Seq<int>,
    c1: Poly<C>,
    m2: Seq<int>,
    v2: Seq<int>,
    w2: Seq<int>,
    c2: Poly<C>,
    cs: Seq<int>,
    k: int,
)
    requires
        is_private_key_of(private_key, f),
        key2.is_canonical(),
        key2.ring() == ring_product(private_key.priv_key, private_key.priv_key),
        c1.is_canonical(),
        c2.is_canonical(),
        forall|j: int|
            #[trigger] get(nega_seq(c1.ints(), small_key(f), C::spec_max_poly_degree()), j) == delta::<C>() * get(m1, j) + get(
                v1,
                j,
            ) + C::spec_modulus() * get(w1, j),
        forall|j: int|
            #[trigger] get(nega_seq(c2.ints(), small_key(f), C::spec_max_poly_degree()), j) == delta::<C>() * get(m2, j) + get(
                v2,
                j,
            ) + C::spec_modulus() * get(w2, j),
        cs.len() <= C::spec_max_poly_degree(),
        forall|i: int|
            0 <= i < C::spec_max_poly_degree() ==> #[trigger] get(cs, i) == scale_coeff::<C>(
                negacyclic(c1.ints(), c2.ints(), C::spec_max_poly_degree(), i),
            ),
        forall|i: int|
            0 <= i < C::spec_max_poly_degree() ==> 2 * #[trigger] negacyclic(c1.ints(), c2.ints(), C::spec_max_poly_degree(), i)
                <= C::PolyBN::spec_lifted_modulus() - 1 && -2 * negacyclic(c1.ints(), c2.ints(), C::spec_max_poly_degree(), i)
                <= C::PolyBN::spec_lifted_modulus() - 1,
        0 <= k < C::spec_max_poly_degree(),
        -((C::spec_modulus() - 1) / 2) <= C::spec_t() * product_noise(f, m1, v1, w1, c1, m2, v2, w2, c2, k) - (
        C::spec_modulus() % (C::spec_t() as int)) * (nega(m1, m2, C::spec_max_poly_degree(), k) % (C::spec_t() as int)) <= (
        C::spec_modulus() - 1) / 2,
    ensures
        decode::<C>(get(ring_mul(cs, key2.ints(), C::spec_max_poly_degree(), C::spec_modulus()), k)) == nega(
            m1,
            m2,
            C::spec_max_poly_degree(),
            k,
        ) % (C::spec_t() as int),
{
    C::lemma_conf_valid();
    C::lemma_yashe_conf_valid();
    let n = C::spec_max_poly_degree();
    let q = C::spec_modulus();
    let t = C::spec_t() as int;
    let d = delta::<C>();
    let r = q % t;
    let cs1 = c1.ints();
    let cs2 = c2.ints();
    let key = small_key(f);
    let f2 = nega_seq(key, key, n);
    let pp = nega_seq(cs1, cs2, n);
    let sc = scaled_seq(c1, c2);
    let rd = rounding_seq(c1, c2);
    let u1 = nega_seq(cs1, key, n);
    let u2 = nega_seq(cs2, key, n);
    lemma_canonical_facts(key2);
    // decryption reads the scaled product against the square of the small key, modulo q
    lemma_key_square_cong(private_key, f, key2);
    lemma_product_cong(c1, c2, cs);
    lemma_ring_mul_nega(cs, key2.ints(), n, q, k);
    lemma_nega_cong(cs, sc, key2.ints(), f2, n, q, k);
    let xx = nega(sc, f2, n, k);
    // q times it: t times the exact product, plus the rounding
    let qsc = Seq::new(n, |i: int| q * sc[i]);
    let tp = Seq::new(n, |i: int| t * pp[i]);
    assert forall|i: int| #[trigger] get(qsc, i) == q * get(sc, i) by {}
    assert forall|i: int| #[trigger] get(qsc, i) == get(tp, i) + get(rd, i) by {}
    assert forall|i: int| #[trigger] get(tp, i) == t * get(pp, i) by {}
    lemma_nega_scale_left(qsc, sc, q, f2, n, k);
    lemma_nega_add_left(qsc, tp, rd, f2, n, k);
    lemma_nega_scale_left(tp, pp, t, f2, n, k);
    // (c1 c2)(t f + 1)^2 = (c1 (t f + 1)) (c2 (t f + 1)), expanded
    lemma_regroup(cs1, cs2, key, n, k);
    lemma_nega_expand(m1, v1, w1, u1, m2, v2, w2, u2, d, q, n, k);
    let mm = nega(m1, m2, n, k);
    let noise = product_noise(f, m1, v1, w1, c1, m2, v2, w2, c2, k);
    lemma_fundamental_div_mod(q, t);
    lemma_fundamental_div_mod(mm, t);
    lemma_mod_bound(mm, t);
    lemma_mul_noise_ints(
        xx,
        nega(u1, u2, n, k),
        nega(rd, f2, n, k),
        q,
        t,
        d,
        r,
        mm,
        nega(m1, v2, n, k),
        nega(m1, w2, n, k),
        nega(v1, m2, n, k),
        nega(v1, v2, n, k),
        nega(v1, w2, n, k),
        nega(w1, m2, n, k),
        nega(w1, v2, n, k),
        nega(w1, w2, n, k),
        (t * nega(v1, v2, n, k) - r * d * mm - r * (nega(m1, v2, n, k) + nega(v1, m2, n, k)) + nega(rd, f2, n, k)) / q,
        mm / t,
        mm % t,
        noise,
    );
    // decoding recovers the message product modulo t
    let x = get(ring_mul(cs, key2.ints(), n, q), k);
    let big = (nega(m1, w2, n, k) + nega(w1, m2, n, k)) + t * nega(w1, w2, n, k) + mm / t;
    lemma_mod_twice(nega(cs, key2.ints(), n, k), q);
    lemma_mod_multiples_vanish(big, d * (mm % t) + noise, q);
    assert(xx == q * big + (d * (mm % t) + noise));
    lemma_mod_bound(nega(cs, key2.ints(), n, k), q);
    lemma_decode_noise(x, mm % t, noise, q, t);
}

/// One coefficient of [`lemma_decrypt_mul`], for the product ciphertext given by its coefficient
/// sequence `cs`.
#[verifier::rlimit(50)]
pub(crate) proof fn lemma_decrypt_mul_coeff<C: YasheConf>(
    f: Poly<C>,
    g: Poly<C>,
    tg: Poly<C>,
    private_key: PrivateKey<C>,
    public_key: PublicKey<C>,
    m1: Poly<C>,
    s1: Poly<C>,
    e1: Poly<C>,
    c1: Poly<C>,
    m2: Poly<C>,
    s2: Poly<C>,
    e2: Poly<C>,
    c2: Poly<C>,
    cs: Seq<int>,
    key2: Poly<C>,
    k: int,
)
    requires
        is_private_key_of(private_key, f),
        is_public_key_of(public_key, g, tg, private_key),
        m1.is_canonical(),
        s1.is_canonical(),
        e1.is_canonical(),
        is_encryption(c1, m1, public_key.h, s1, e1),
        m2.is_canonical(),
        s2.is_canonical(),
        e2.is_canonical(),
        is_encryption(c2, m2, public_key.h, s2, e2),
        cs.len() <= C::spec_max_poly_degree(),
        forall|i: int|
            0 <= i < C::spec_max_poly_degree() ==> #[trigger] get(cs, i) == scale_coeff::<C>(
                negacyclic(c1.ints(), c2.ints(), C::spec_max_poly_degree(), i),
            ),
        key2.is_canonical(),
        key2.ring() == ring_product(private_key.priv_key, private_key.priv_key),
        forall|i: int|
            0 <= i < C::spec_max_poly_degree() ==> 2 * #[trigger] negacyclic(c1.ints(), c2.ints(), C::spec_max_poly_degree(), i)
                <= C::PolyBN::spec_lifted_modulus() - 1 && -2 * negacyclic(c1.ints(), c2.ints(), C::spec_max_poly_degree(), i)
                <= C::PolyBN::spec_lifted_modulus() - 1,
        0 <= k < C::spec_max_poly_degree(),
        2 * nega(m1.ints(), m2.ints(), C::spec_max_poly_degree(), k) <= C::spec_modulus() - 1,
        -2 * nega(m1.ints(), m2.ints(), C::spec_max_poly_degree(), k) <= C::spec_modulus() - 1,
        -((C::spec_modulus() - 1) / 2) <= C::spec_t() * multiplication_noise(f, g, m1, s1, e1, c1, m2, s2, e2, c2, k)
            - (C::spec_modulus() % (C::spec_t() as int)) * (nega(m1.ints(), m2.ints(), C::spec_max_poly_degree(), k) % (
        C::spec_t() as int)) <= (C::spec_modulus() - 1) / 2,
    ensures
        decode::<C>(get(ring_mul(cs, key2.ints(), C::spec_max_poly_degree(), C::spec_modulus()), k)) == plain_mul_coeff::<C>(get(ring_product(m1, m2), k)),
{
    C::lemma_conf_valid();
    C::lemma_yashe_conf_valid();
    let n = C::spec_max_poly_degree();
    let q = C::spec_modulus();
    let ms1 = m1.ints();
    let ms2 = m2.ints();
    lemma_key_product(f, g, tg, private_key, public_key, m1, s1, e1, c1);
    lemma_key_product(f, g, tg, private_key, public_key, m2, s2, e2, c2);
    lemma_decrypt_product(
        f,
        private_key,
        key2,
        ms1,
        noise_seq(f, g, s1, e1, m1),
        key_wraps(f, g, s1, e1, m1, c1),
        c1,
        ms2,
        noise_seq(f, g, s2, e2, m2),
        key_wraps(f, g, s2, e2, m2, c2),
        c2,
        cs,
        k,
    );
    // the plaintext product does not wrap modulo q
    let mm = nega(ms1, ms2, n, k);
    lemma_canonical_facts(m1);
    lemma_canonical_facts(m2);
    lemma_ring_mul_nega(ms1, ms2, n, q, k);
    lemma_mod_twice(mm, q);
    if mm >= 0 {
        lemma_small_mod(mm as nat, q as nat);
    } else {
        lemma_fundamental_div_mod_converse(mm, q, -1, mm + q);
    }
    assert(center_lift(mm % q, q) == mm);
}

/// Decrypting the product of two fresh encryptions with the square of the private key gives
/// the product of the messages: `decrypt_mul(ciphertext_mul(c1, c2))` is
/// `plaintext_mul(m1, m2)`, coefficient by coefficient, whenever
///
/// - no exact product coefficient of the ciphertexts wraps around the lifted modulus,
/// - the exact product of the messages stays within `(q - 1) / 2`, so that `plaintext_mul`
///   reduces it modulo `t` as it is, and
/// - the noise of [`multiplication_noise`] is small: `t` times it, less `(q mod t)` times the
///   message product modulo `t`, stays within `(q - 1) / 2`.
///
/// The keys are those derived from the samples `f` and `g`, and `c1`, `c2` encrypt `m1`, `m2`
/// with the samples `s1`, `e1` and `s2`, `e2`. `c` holds the coefficients that
/// `Yashe::ciphertext_mul` gives for `c1` and `c2`, and `key2` is the reduced square of the
/// private key that `Yashe::decrypt_mul` decrypts with; `Yashe::plaintext_mul` computes the
/// coefficients of `plain_mul_coeff(m1 m2)`.
pub proof fn lemma_decrypt_mul<C: YasheConf>(
    f: Poly<C>,
    g: Poly<C>,
    tg: Poly<C>,
    private_key: PrivateKey<C>,
    public_key: PublicKey<C>,
    m1: Poly<C>,
    s1: Poly<C>,
    e1: Poly<C>,
    c1: Poly<C>,
    m2: Poly<C>,
    s2: Poly<C>,
    e2: Poly<C>,
    c2: Poly<C>,
    c: Poly<C>,
    key2: Poly<C>,
)
    requires
        is_private_key_of(private_key, f),
        is_public_key_of(public_key, g, tg, private_key),
        m1.is_canonical(),
        s1.is_canonical(),
        e1.is_canonical(),
        is_encryption(c1, m1, public_key.h, s1, e1),
        m2.is_canonical(),
        s2.is_canonical(),
        e2.is_canonical(),
        is_encryption(c2, m2, public_key.h, s2, e2),
        c.is_canonical(),
        forall|i: int|
            0 <= i < C::spec_max_poly_degree() ==> #[trigger] c.coeff(i) == scale_coeff::<C>(
                negacyclic(c1.ints(), c2.ints(), C::spec_max_poly_degree(), i),
            ),
        key2.is_canonical(),
        key2.ring() == ring_product(private_key.priv_key, private_key.priv_key),
        forall|i: int|
            0 <= i < C::spec_max_poly_degree() ==> 2 * #[trigger] negacyclic(c1.ints(), c2.ints(), C::spec_max_poly_degree(), i)
                <= C::PolyBN::spec_lifted_modulus() - 1 && -2 * negacyclic(c1.ints(), c2.ints(), C::spec_max_poly_degree(), i)
                <= C::PolyBN::spec_lifted_modulus() - 1,
        forall|i: int|
            0 <= i < C::spec_max_poly_degree() ==> 2 * #[trigger] nega(m1.ints(), m2.ints(), C::spec_max_poly_degree(), i)
                <= C::spec_modulus() - 1 && -2 * nega(m1.ints(), m2.ints(), C::spec_max_poly_degree(), i) <= C::spec_modulus()
                - 1,
        forall|i: int|
            0 <= i < C::spec_max_poly_degree() ==> -((C::spec_modulus() - 1) / 2) <= C::spec_t() * #[trigger] multiplication_noise(
                f,
                g,
                m1,
                s1,
                e1,
                c1,
                m2,
                s2,
                e2,
                c2,
                i,
            ) - (C::spec_modulus() % (C::spec_t() as int)) * (nega(m1.ints(), m2.ints(), C::spec_max_poly_degree(), i) % (
            C::spec_t() as int)) <= (C::spec_modulus() - 1) / 2,
    ensures
        forall|i: int|
            0 <= i < C::spec_max_poly_degree() ==> #[trigger] decode::<C>(get(ring_product(c, key2), i)) == plain_mul_coeff::<C>(
                get(ring_product(m1, m2), i),
            ),
{
    assert forall|i: int| 0 <= i < C::spec_max_poly_degree() implies #[trigger] get(c.ints(), i) == scale_coeff::<C>(
        negacyclic(c1.ints(), c2.ints(), C::spec_max_poly_degree(), i),
    ) by {
        assert(c.coeff(i) == scale_coeff::<C>(negacyclic(c1.ints(), c2.ints(), C::spec_max_poly_degree(), i)));
    }
    assert forall|i: int| 0 <= i < C::spec_max_poly_degree() implies #[trigger] decode::<C>(get(ring_product(c, key2), i))
        == plain_mul_coeff::<C>(get(ring_product(m1, m2), i)) by {
        assert(2 * nega(m1.ints(), m2.ints(), C::spec_max_poly_degree(), i) <= C::spec_modulus() - 1);
        assert(-((C::spec_modulus() - 1) / 2) <= C::spec_t() * multiplication_noise(f, g, m1, s1, e1, c1, m2, s2, e2, c2, i)
            - (C::spec_modulus() % (C::spec_t() as int)) * (nega(m1.ints(), m2.ints(), C::spec_max_poly_degree(), i) % (
        C::spec_t() as int)) <= (C::spec_modulus() - 1) / 2);
        lemma_canonical_facts(c);
        lemma_decrypt_mul_coeff(f, g, tg, private_key, public_key, m1, s1, e1, c1, m2, s2, e2, c2, c.ints(), key2, i);
    }
}

} // verus!
