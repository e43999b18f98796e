//! Correctness of YASHE decryption: decrypting a fresh encryption with the matching private key
//! gives back the message, whenever the noise that the samples contribute is small enough.
use vstd::arithmetic::div_mod::*;
use vstd::arithmetic::mul::*;
use vstd::prelude::*;

use crate::primitives::poly::algebra::{fold_upto, get, ring_mul, ring_seq};
use crate::primitives::poly::conf::PolyConf;
use crate::primitives::poly::ring::{
    lemma_nega_add_left, lemma_nega_assoc, lemma_nega_bound, lemma_nega_comm, lemma_nega_cong, lemma_nega_scale_left,
    lemma_nega_unit, lemma_ring_mul_nega, nega, nega_seq, short,
};
use crate::primitives::poly::Poly;
use crate::primitives::yashe::conf::YasheConf;
use crate::primitives::yashe::{center_lift, decode, delta, is_encryption, ring_product, PrivateKey, PublicKey};

verus! {

/// The coefficients of `p`, lifted to the range centred on zero.
pub open spec fn centered<C: YasheConf>(p: Poly<C>) -> Seq<int> {
    Seq::new(C::spec_max_poly_degree(), |i: int| center_lift(p.coeff(i), C::spec_modulus()))
}

/// The noise in coefficient `k` of a fresh encryption multiplied by the private key, from the
/// key samples `f`, `g`, the encryption samples `s`, `e` and the message `m`, all centred on
/// zero: `t s g + t e f + e - (q mod t) m f`.
pub open spec fn decryption_noise<C: YasheConf>(f: Poly<C>, g: Poly<C>, s: Poly<C>, e: Poly<C>, m: Poly<C>, k: int) -> int {
    let n = C::spec_max_poly_degree();
    let t = C::spec_t() as int;
    t * nega(centered(s), centered(g), n, k) + t * nega(centered(e), centered(f), n, k) + get(centered(e), k)
        - (C::spec_modulus() % t) * nega(m.ints(), centered(f), n, k)
}

/// `key` is the private key derived from the sample `f`: `t f + 1` and its inverse.
pub open spec fn is_private_key_of<C: YasheConf>(key: PrivateKey<C>, f: Poly<C>) -> bool {
    &&& f.is_canonical()
    &&& key.priv_key.is_canonical()
    &&& key.priv_key_inv.is_canonical()
    &&& forall|i: int|
        0 <= i < C::spec_max_poly_degree() ==> #[trigger] key.priv_key.coeff(i) == (C::spec_t() * f.coeff(i) + if i == 0 {
            1int
        } else {
            0int
        }) % C::spec_modulus()
    &&& ring_product(key.priv_key, key.priv_key_inv) == ring_seq(seq![1int], C::spec_max_poly_degree(), C::spec_modulus())
}

/// `key` is the public key derived from the sample `g` and the private key: `tg / (t f + 1)`,
/// where `tg` is `t g`.
pub open spec fn is_public_key_of<C: YasheConf>(key: PublicKey<C>, g: Poly<C>, tg: Poly<C>, private_key: PrivateKey<C>) -> bool {
    &&& g.is_canonical()
    &&& tg.is_canonical()
    &&& forall|i: int| #[trigger] tg.coeff(i) == (C::spec_t() * g.coeff(i)) % C::spec_modulus()
    &&& key.h.is_canonical()
    &&& key.h.ring() == ring_product(tg, private_key.priv_key_inv)
}

/// The stored coefficients of a canonical polynomial are short, reduced, and agree with the ring
/// element it represents.
pub proof fn lemma_canonical_facts<C: YasheConf>(p: Poly<C>)
    requires
        p.is_canonical(),
    ensures
        short(p.ints(), C::spec_max_poly_degree()),
        forall|i: int| 0 <= #[trigger] p.coeff(i) < C::spec_modulus(),
        forall|i: int| 0 <= i < C::spec_max_poly_degree() ==> #[trigger] p.ring()[i] == p.coeff(i),
        forall|i: int| i < 0 || i >= C::spec_max_poly_degree() ==> #[trigger] p.coeff(i) == 0,
{
    C::lemma_conf_valid();
    p.lemma_canonical_ring();
    assert forall|i: int| 0 <= #[trigger] p.coeff(i) < C::spec_modulus() by {
        if 0 <= i < p.coeffs@.len() {
            assert(p.ints()[i] == p.coeffs@[i] as int);
        }
    }
}

/// A centred coefficient is congruent to the stored one.
pub proof fn lemma_centered_cong<C: YasheConf>(p: Poly<C>)
    requires
        p.is_canonical(),
    ensures
        forall|i: int| #[trigger] get(centered(p), i) % C::spec_modulus() == get(p.ints(), i) % C::spec_modulus(),
{
    C::lemma_conf_valid();
    lemma_canonical_facts(p);
    let q = C::spec_modulus();
    assert forall|i: int| #[trigger] get(centered(p), i) % q == get(p.ints(), i) % q by {
        if 0 <= i < C::spec_max_poly_degree() {
            let x = p.coeff(i);
            lemma_small_mod(x as nat, q as nat);
            if x % q > (q - 1) / 2 {
                lemma_mod_sub_multiples_vanish(x, q);
            }
        }
    }
}

/// `x a + y b` modulo `q` depends only on `a` and `b` modulo `q`.
pub proof fn lemma_mod_lin(a: int, a2: int, b: int, b2: int, x: int, y: int, q: int)
    requires
        q > 0,
        a % q == a2 % q,
        b % q == b2 % q,
    ensures
        (x * a + y * b) % q == (x * a2 + y * b2) % q,
{
    lemma_mul_mod_noop_right(x, a, q);
    lemma_mul_mod_noop_right(x, a2, q);
    lemma_mul_mod_noop_right(y, b, q);
    lemma_mul_mod_noop_right(y, b2, q);
    lemma_add_mod_noop(x * a, y * b, q);
    lemma_add_mod_noop(x * a2, y * b2, q);
}

/// Multiplying by the private key turns the public key into `t g`: `h (t f + 1) = t g`.
proof fn lemma_public_times_private<C: YasheConf>(f: Poly<C>, g: Poly<C>, tg: Poly<C>, private_key: PrivateKey<C>, public_key: PublicKey<C>)
    requires
        is_private_key_of(private_key, f),
        is_public_key_of(public_key, g, tg, private_key),
    ensures
        forall|j: int|
            #[trigger] get(nega_seq(public_key.h.ints(), private_key.priv_key.ints(), C::spec_max_poly_degree()), j)
                % C::spec_modulus() == (C::spec_t() * get(g.ints(), j)) % C::spec_modulus(),
{
    C::lemma_conf_valid();
    let n = C::spec_max_poly_degree();
    let q = C::spec_modulus();
    let hh = public_key.h.ints();
    let ff = private_key.priv_key.ints();
    let ii = private_key.priv_key_inv.ints();
    let tt = tg.ints();
    let one = seq![1int];
    lemma_canonical_facts(public_key.h);
    lemma_canonical_facts(private_key.priv_key);
    lemma_canonical_facts(private_key.priv_key_inv);
    lemma_canonical_facts(tg);
    lemma_canonical_facts(g);
    // h is t g / (t f + 1) in the ring
    assert forall|j: int| #[trigger] get(hh, j) % q == get(nega_seq(tt, ii, n), j) % q by {
        if 0 <= j < n {
            assert(public_key.h.ring()[j] == public_key.h.coeff(j));
            lemma_ring_mul_nega(tt, ii, n, q, j);
            lemma_mod_twice(nega(tt, ii, n, j), q);
        }
    }
    // inv (t f + 1) is one
    assert forall|l: int| #[trigger] get(nega_seq(ii, ff, n), l) % q == get(one, l) % q by {
        if 0 <= l < n {
            lemma_nega_comm(ii, ff, n, l);
            lemma_ring_mul_nega(ff, ii, n, q, l);
            lemma_mod_twice(nega(ff, ii, n, l), q);
            assert(fold_upto(one, n as int, l + n, 1) == 0);
            assert(ring_seq(one, n, q)[l] == get(one, l) % q);
        }
    }
    assert forall|i: int| #[trigger] get(tt, i) % q == get(tt, i) % q by {}
    assert forall|i: int| #[trigger] get(ff, i) % q == get(ff, i) % q by {}
    assert forall|j: int|
        #[trigger] get(nega_seq(hh, ff, n), j) % q == (C::spec_t() * get(g.ints(), j)) % q by {
        if 0 <= j < n {
            assert(get(nega_seq(hh, ff, n), j) == nega(hh, ff, n, j));
            lemma_nega_cong(hh, nega_seq(tt, ii, n), ff, ff, n, q, j);
            lemma_nega_assoc(tt, ii, ff, n, j);
            lemma_nega_cong(tt, tt, nega_seq(ii, ff, n), one, n, q, j);
            lemma_nega_unit(tt, n, j);
            assert(nega(hh, ff, n, j) % q == get(tt, j) % q);
            assert(tg.coeff(j) == (C::spec_t() * g.coeff(j)) % q);
            lemma_mod_twice(C::spec_t() * g.coeff(j), q);
        } else {
            assert(get(g.ints(), j) == 0);
        }
    }
}

/// Multiplying by the private key `t f + 1`, modulo `q`: `x (t f + 1) = t x f + x`.
proof fn lemma_times_private<C: YasheConf>(x: Seq<int>, f: Poly<C>, private_key: PrivateKey<C>, k: int)
    requires
        is_private_key_of(private_key, f),
        short(x, C::spec_max_poly_degree()),
        0 <= k < C::spec_max_poly_degree(),
    ensures
        nega(x, private_key.priv_key.ints(), C::spec_max_poly_degree(), k) % C::spec_modulus()
            == (C::spec_t() * nega(x, f.ints(), C::spec_max_poly_degree(), k) + get(x, k)) % C::spec_modulus(),
{
    C::lemma_conf_valid();
    let n = C::spec_max_poly_degree();
    let q = C::spec_modulus();
    let t = C::spec_t() as int;
    let ff = private_key.priv_key.ints();
    let fs = f.ints();
    let one = seq![1int];
    lemma_canonical_facts(private_key.priv_key);
    lemma_canonical_facts(f);
    let tf1 = Seq::new(n, |i: int| t * get(fs, i) + get(one, i));
    let tf = Seq::new(n, |i: int| t * get(fs, i));
    assert forall|i: int| #[trigger] get(ff, i) % q == get(tf1, i) % q by {
        if 0 <= i < n {
            assert(private_key.priv_key.coeff(i) == (t * f.coeff(i) + if i == 0 { 1int } else { 0int }) % q);
            lemma_mod_twice(t * f.coeff(i) + if i == 0 { 1int } else { 0int }, q);
        }
    }
    assert forall|i: int| #[trigger] get(x, i) % q == get(x, i) % q by {}
    lemma_nega_comm(x, ff, n, k);
    lemma_nega_cong(ff, tf1, x, x, n, q, k);
    assert forall|i: int| #[trigger] get(tf1, i) == get(tf, i) + get(one, i) by {}
    lemma_nega_add_left(tf1, tf, one, x, n, k);
    assert forall|i: int| #[trigger] get(tf, i) == t * get(fs, i) by {}
    lemma_nega_scale_left(tf, fs, t, x, n, k);
    lemma_nega_comm(fs, x, n, k);
    lemma_nega_comm(one, x, n, k);
    lemma_nega_unit(x, n, k);
}

/// Rounding `t x / q` recovers `m` when `x` is `(q / t) m` plus a small noise, modulo `q`.
pub proof fn lemma_decode_noise(x: int, m: int, v: int, q: int, t: int)
    requires
        0 < t < q,
        0 <= m < t,
        0 <= x < q,
        x % q == ((q / t) * m + v) % q,
        -((q - 1) / 2) <= t * v - (q % t) * m <= (q - 1) / 2,
    ensures
        ((x * t + (q - 1) / 2) / q) % t == m,
{
    let d = q / t;
    let r = q % t;
    lemma_fundamental_div_mod(q, t);
    let y = d * m + v;
    lemma_fundamental_div_mod(y, q);
    lemma_fundamental_div_mod(x, q);
    // x = y - K q for an integer K
    let kk = y / q - x / q;
    assert(x == y - kk * q) by (nonlinear_arith)
        requires
            y == q * (y / q) + y % q,
            x == q * (x / q) + x % q,
            x % q == y % q,
            kk == y / q - x / q;
    let w = t * v - r * m;
    assert(x * t + (q - 1) / 2 == q * (m - kk * t) + (w + (q - 1) / 2)) by (nonlinear_arith)
        requires
            x == y - kk * q,
            y == d * m + v,
            q == t * d + r,
            w == t * v - r * m;
    lemma_fundamental_div_mod_converse(x * t + (q - 1) / 2, q, m - kk * t, w + (q - 1) / 2);
    lemma_mod_multiples_vanish(-kk, m, t);
    assert(m - kk * t == t * (-kk) + m) by (nonlinear_arith);
    lemma_small_mod(m as nat, t as nat);
}

/// Multiplying a fresh encryption of `m` by the private key gives `(q / t) m` plus the noise of
/// [`decryption_noise`], modulo `q`.
pub proof fn lemma_encryption_times_key<C: YasheConf>(
    f: Poly<C>,
    g: Poly<C>,
    tg: Poly<C>,
    private_key: PrivateKey<C>,
    public_key: PublicKey<C>,
    m: Poly<C>,
    s: Poly<C>,
    e: Poly<C>,
    c: Poly<C>,
)
    requires
        is_private_key_of(private_key, f),
        is_public_key_of(public_key, g, tg, private_key),
        m.is_canonical(),
        s.is_canonical(),
        e.is_canonical(),
        is_encryption(c, m, public_key.h, s, e),
    ensures
        forall|i: int|
            0 <= i < C::spec_max_poly_degree() ==> #[trigger] get(ring_product(c, private_key.priv_key), i) == (delta::<C>()
                * m.coeff(i) + decryption_noise(f, g, s, e, m, i)) % C::spec_modulus(),
{
    C::lemma_conf_valid();
    C::lemma_yashe_conf_valid();
    let n = C::spec_max_poly_degree();
    let q = C::spec_modulus();
    let t = C::spec_t() as int;
    let d = delta::<C>();
    let cc = c.ints();
    let ff = private_key.priv_key.ints();
    let hh = public_key.h.ints();
    let ss = s.ints();
    let ee = e.ints();
    let mm = m.ints();
    let gg = g.ints();
    let fs = f.ints();
    lemma_canonical_facts(c);
    lemma_canonical_facts(private_key.priv_key);
    lemma_canonical_facts(public_key.h);
    lemma_canonical_facts(s);
    lemma_canonical_facts(e);
    lemma_canonical_facts(m);
    lemma_canonical_facts(g);
    lemma_canonical_facts(f);
    lemma_centered_cong(s);
    lemma_centered_cong(e);
    lemma_centered_cong(g);
    lemma_centered_cong(f);
    lemma_public_times_private(f, g, tg, private_key, public_key);
    let sh = nega_seq(ss, hh, n);
    let xx = Seq::new(n, |i: int| get(sh, i) + get(ee, i) + d * get(mm, i));
    let yy = Seq::new(n, |i: int| get(ee, i) + d * get(mm, i));
    let zz = Seq::new(n, |i: int| d * get(mm, i));
    // the ciphertext, before reduction modulo q
    assert forall|i: int| #[trigger] get(cc, i) % q == get(xx, i) % q by {
        if 0 <= i < n {
            assert(c.coeff(i) == (get(ring_product(s, public_key.h), i) + e.coeff(i) + d * m.coeff(i)) % q);
            lemma_ring_mul_nega(ss, hh, n, q, i);
            lemma_mod_twice(get(ring_product(s, public_key.h), i) + e.coeff(i) + d * m.coeff(i), q);
            lemma_add_mod_noop(nega(ss, hh, n, i), e.coeff(i) + d * m.coeff(i), q);
            lemma_mod_twice(nega(ss, hh, n, i), q);
            lemma_add_mod_noop(nega(ss, hh, n, i) % q, e.coeff(i) + d * m.coeff(i), q);
        }
    }
    assert forall|i: int| #[trigger] get(ff, i) % q == get(ff, i) % q by {}
    assert forall|i: int| #[trigger] get(xx, i) == get(sh, i) + get(yy, i) by {}
    assert forall|i: int| #[trigger] get(yy, i) == get(ee, i) + get(zz, i) by {}
    assert forall|i: int| #[trigger] get(zz, i) == d * get(mm, i) by {}
    let tgs = Seq::new(n, |i: int| t * get(gg, i));
    assert forall|i: int| #[trigger] get(nega_seq(hh, ff, n), i) % q == get(tgs, i) % q by {
        assert(get(nega_seq(hh, ff, n), i) % q == (t * get(gg, i)) % q);
    }
    assert forall|i: int| #[trigger] get(ss, i) % q == get(ss, i) % q by {}
    assert forall|i: int| #[trigger] get(tgs, i) == t * get(gg, i) by {}
    assert forall|i: int| #[trigger] get(mm, i) % q == get(mm, i) % q by {}
    assert forall|k: int| 0 <= k < n implies #[trigger] get(ring_product(c, private_key.priv_key), k) == (d * m.coeff(k)
        + decryption_noise(f, g, s, e, m, k)) % q by {
        let sc = centered(s);
        let ec = centered(e);
        let gc = centered(g);
        let fc = centered(f);
        lemma_ring_mul_nega(cc, ff, n, q, k);
        // c (t f + 1) = (s h + e + d m)(t f + 1)
        lemma_nega_cong(cc, xx, ff, ff, n, q, k);
        lemma_nega_add_left(xx, sh, yy, ff, n, k);
        lemma_nega_add_left(yy, ee, zz, ff, n, k);
        lemma_nega_scale_left(zz, mm, d, ff, n, k);
        // s h (t f + 1) = s t g
        lemma_nega_assoc(ss, hh, ff, n, k);
        lemma_nega_cong(ss, ss, nega_seq(hh, ff, n), tgs, n, q, k);
        lemma_nega_comm(ss, tgs, n, k);
        lemma_nega_scale_left(tgs, gg, t, ss, n, k);
        lemma_nega_comm(gg, ss, n, k);
        lemma_nega_cong(ss, sc, gg, gc, n, q, k);
        // e (t f + 1) = t e f + e, and m (t f + 1) = t m f + m
        lemma_times_private(ee, f, private_key, k);
        lemma_times_private(mm, f, private_key, k);
        lemma_nega_cong(ee, ec, fs, fc, n, q, k);
        lemma_nega_cong(mm, mm, fs, fc, n, q, k);
        let a1 = nega(ss, nega_seq(hh, ff, n), n, k);
        let a2 = nega(ee, ff, n, k);
        let a3 = nega(mm, ff, n, k);
        let b1 = nega(sc, gc, n, k);
        let b2 = nega(ec, fc, n, k);
        let b3 = nega(mm, fc, n, k);
        let total = nega(cc, ff, n, k);
        let noise = decryption_noise(f, g, s, e, m, k);
        assert(noise == t * b1 + t * b2 + get(ec, k) - (q % t) * b3);
        // modulo q: a1 = t b1, a2 = t b2 + e_k, a3 = t b3 + m_k
        assert(a1 % q == (t * b1) % q) by {
            assert(nega(ss, tgs, n, k) == t * nega(ss, gg, n, k));
            assert(a1 % q == (t * nega(ss, gg, n, k)) % q);
            lemma_mod_lin(nega(ss, gg, n, k), b1, 0, 0, t, 0, q);
        }
        assert(a2 % q == (t * b2 + get(ec, k)) % q) by {
            lemma_mod_lin(nega(ee, fs, n, k), b2, get(ee, k), get(ec, k), t, 1, q);
        }
        assert(a3 % q == (t * b3 + get(mm, k)) % q) by {
            lemma_mod_lin(nega(mm, fs, n, k), b3, get(mm, k), get(mm, k), t, 1, q);
        }
        assert(total % q == (a1 + a2 + d * a3) % q);
        assert((a1 + a2 + d * a3) % q == (t * b1 + (t * b2 + get(ec, k)) + d * (t * b3 + get(mm, k))) % q) by {
            lemma_mod_lin(a1, t * b1, a2, t * b2 + get(ec, k), 1, 1, q);
            lemma_mod_lin(a1 + a2, t * b1 + (t * b2 + get(ec, k)), a3, t * b3 + get(mm, k), 1, d, q);
        }
        // d t = q - (q mod t)
        lemma_fundamental_div_mod(q, t);
        assert(t * b1 + (t * b2 + get(ec, k)) + d * (t * b3 + get(mm, k)) == d * get(mm, k) + noise + q * b3)
            by (nonlinear_arith)
            requires
                noise == t * b1 + t * b2 + get(ec, k) - (q % t) * b3,
                q == t * d + q % t;
        lemma_mod_multiples_vanish(b3, d * get(mm, k) + noise, q);
        assert(d * get(mm, k) + noise + q * b3 == q * b3 + (d * get(mm, k) + noise));
    }
}

/// Decrypting a fresh encryption with the matching private key gives back the message, when
/// the noise of [`decryption_noise`] is small: `t` times it, less `(q mod t) m`, stays within
/// `(q - 1) / 2` in every coefficient.
///
/// The keys are those derived from the samples `f` and `g` (see `Yashe::private_key_from_sample`
/// and `Yashe::public_key_from_sample`), and `c` is the encryption of `m` with the samples `s` and
/// `e` (see `Yashe::encrypt_with_errors`). Decryption computes the coefficients of
/// `decode(c (t f + 1))` (see `Yashe::decrypt`).
pub proof fn lemma_decrypt_encrypt<C: YasheConf>(
    f: Poly<C>,
    g: Poly<C>,
    tg: Poly<C>,
    private_key: PrivateKey<C>,
    public_key: PublicKey<C>,
    m: Poly<C>,
    s: Poly<C>,
    e: Poly<C>,
    c: Poly<C>,
)
    requires
        is_private_key_of(private_key, f),
        is_public_key_of(public_key, g, tg, private_key),
        m.is_canonical(),
        s.is_canonical(),
        e.is_canonical(),
        is_encryption(c, m, public_key.h, s, e),
        forall|i: int| 0 <= i < C::spec_max_poly_degree() ==> #[trigger] m.coeff(i) < C::spec_t(),
        forall|i: int|
            0 <= i < C::spec_max_poly_degree() ==> -((C::spec_modulus() - 1) / 2) <= C::spec_t() * #[trigger] decryption_noise(
                f,
                g,
                s,
                e,
                m,
                i,
            ) - (C::spec_modulus() % (C::spec_t() as int)) * m.coeff(i) <= (C::spec_modulus() - 1) / 2,
    ensures
        forall|i: int|
            0 <= i < C::spec_max_poly_degree() ==> #[trigger] decode::<C>(get(ring_product(c, private_key.priv_key), i))
                == m.coeff(i),
{
    C::lemma_conf_valid();
    C::lemma_yashe_conf_valid();
    let q = C::spec_modulus();
    let t = C::spec_t() as int;
    lemma_encryption_times_key(f, g, tg, private_key, public_key, m, s, e, c);
    lemma_canonical_facts(m);
    assert forall|k: int| 0 <= k < C::spec_max_poly_degree() implies #[trigger] decode::<C>(
        get(ring_product(c, private_key.priv_key), k),
    ) == m.coeff(k) by {
        let v = delta::<C>() * m.coeff(k) + decryption_noise(f, g, s, e, m, k);
        let x = get(ring_product(c, private_key.priv_key), k);
        lemma_mod_bound(v, q);
        lemma_mod_twice(v, q);
        lemma_decode_noise(x, m.coeff(k), decryption_noise(f, g, s, e, m, k), q, t);
    }
}

/// Every coefficient of `s` is between `-b` and `b`.
pub open spec fn bounded(s: Seq<int>, b: int) -> bool {
    forall|i: int| -b <= #[trigger] get(s, i) <= b
}

/// Decrypting a fresh encryption with the matching private key gives back the message, when the
/// centred key samples `f`, `g` are bounded by `bk`, the centred encryption samples `s`, `e` by
/// `be`, and `t (2 t n bk be + be + (q mod t) n (t - 1) bk) + (q mod t)(t - 1)` is at most
/// `(q - 1) / 2`.
pub proof fn lemma_decrypt_encrypt_bounded<C: YasheConf>(
    f: Poly<C>,
    g: Poly<C>,
    tg: Poly<C>,
    private_key: PrivateKey<C>,
    public_key: PublicKey<C>,
    m: Poly<C>,
    s: Poly<C>,
    e: Poly<C>,
    c: Poly<C>,
    bk: int,
    be: int,
)
    requires
        is_private_key_of(private_key, f),
        is_public_key_of(public_key, g, tg, private_key),
        m.is_canonical(),
        s.is_canonical(),
        e.is_canonical(),
        is_encryption(c, m, public_key.h, s, e),
        forall|i: int| 0 <= i < C::spec_max_poly_degree() ==> #[trigger] m.coeff(i) < C::spec_t(),
        bk >= 0,
        be >= 0,
        bounded(centered(f), bk),
        bounded(centered(g), bk),
        bounded(centered(s), be),
        bounded(centered(e), be),
        C::spec_t() * (2 * C::spec_t() * C::spec_max_poly_degree() * (bk * be) + be + (C::spec_modulus() % (
        C::spec_t() as int)) * C::spec_max_poly_degree() * ((C::spec_t() - 1) * bk)) + (C::spec_modulus() % (
        C::spec_t() as int)) * (C::spec_t() - 1) <= (C::spec_modulus() - 1) / 2,
    ensures
        forall|i: int|
            0 <= i < C::spec_max_poly_degree() ==> #[trigger] decode::<C>(get(ring_product(c, private_key.priv_key), i))
                == m.coeff(i),
{
    C::lemma_conf_valid();
    C::lemma_yashe_conf_valid();
    let n = C::spec_max_poly_degree();
    let q = C::spec_modulus();
    let t = C::spec_t() as int;
    let r = q % t;
    lemma_canonical_facts(m);
    lemma_fundamental_div_mod(q, t);
    assert forall|i: int| 0 <= i < n implies -((q - 1) / 2) <= t * #[trigger] decryption_noise(f, g, s, e, m, i) - r * m.coeff(i)
        <= (q - 1) / 2 by {
        let b1 = nega(centered(s), centered(g), n, i);
        let b2 = nega(centered(e), centered(f), n, i);
        let b3 = nega(m.ints(), centered(f), n, i);
        let ek = get(centered(e), i);
        let mk = m.coeff(i);
        lemma_nega_bound(centered(s), centered(g), n, i, be, bk);
        lemma_nega_bound(centered(e), centered(f), n, i, be, bk);
        assert forall|j: int| -(t - 1) <= #[trigger] get(m.ints(), j) <= t - 1 by {
            if 0 <= j < n {
                assert(m.coeff(j) < t);
            }
        }
        lemma_nega_bound(m.ints(), centered(f), n, i, t - 1, bk);
        assert(be * bk == bk * be) by (nonlinear_arith);
        assert(-be <= ek <= be);
        assert(0 <= mk < t);
        assert(0 <= r < t);
        let pp = n * (bk * be);
        let p3 = n * ((t - 1) * bk);
        assert(-(t * pp) <= t * b1 <= t * pp) by (nonlinear_arith)
            requires
                -pp <= b1 <= pp,
                t >= 0;
        assert(-(t * pp) <= t * b2 <= t * pp) by (nonlinear_arith)
            requires
                -pp <= b2 <= pp,
                t >= 0;
        assert(-(r * p3) <= r * b3 <= r * p3) by (nonlinear_arith)
            requires
                -p3 <= b3 <= p3,
                r >= 0;
        assert(2 * t * n * (bk * be) == 2 * (t * pp)) by (nonlinear_arith)
            requires
                pp == n * (bk * be);
        assert(r * n * ((t - 1) * bk) == r * p3) by (nonlinear_arith)
            requires
                p3 == n * ((t - 1) * bk);
        let bound = 2 * t * n * (bk * be) + be + r * n * ((t - 1) * bk);
        let noise = t * b1 + t * b2 + ek - r * b3;
        assert(-bound <= noise <= bound);
        assert(-(t * bound) <= t * noise <= t * bound) by (nonlinear_arith)
            requires
                -bound <= noise <= bound,
                t >= 0;
        assert(0 <= r * mk <= r * (t - 1)) by (nonlinear_arith)
            requires
                0 <= mk <= t - 1,
                0 <= r;
    }
    lemma_decrypt_encrypt(f, g, tg, private_key, public_key, m, s, e, c);
}

/// The noise of the sum of two fresh encryptions after multiplying by the private key: the two
/// noises, less `q mod t` where the sum of the message coefficients carries past `t`.
pub open spec fn addition_noise<C: YasheConf>(
    f: Poly<C>,
    g: Poly<C>,
    s1: Poly<C>,
    e1: Poly<C>,
    m1: Poly<C>,
    s2: Poly<C>,
    e2: Poly<C>,
    m2: Poly<C>,
    k: int,
) -> int {
    let t = C::spec_t() as int;
    decryption_noise(f, g, s1, e1, m1, k) + decryption_noise(f, g, s2, e2, m2, k) - (C::spec_modulus() % t) * ((
    m1.coeff(k) + m2.coeff(k)) / t)
}

/// Decrypting the sum of two fresh encryptions (see `Yashe::ciphertext_add`) gives the sum of
/// the messages (see `Yashe::plaintext_add`), when the noise of [`addition_noise`] is small:
/// `t` times it, less `(q mod t)` times the message sum modulo `t`, stays within `(q - 1) / 2` in
/// every coefficient.
pub proof fn lemma_decrypt_add<C: YasheConf>(
    f: Poly<C>,
    g: Poly<C>,
    tg: Poly<C>,
    private_key: PrivateKey<C>,
    public_key: PublicKey<C>,
    m1: Poly<C>,
    s1: Poly<C>,
    e1: Poly<C>,
    c1: Poly<C>,
    m2: Poly<C>,
    s2: Poly<C>,
    e2: Poly<C>,
    c2: Poly<C>,
    c: Poly<C>,
)
    requires
        is_private_key_of(private_key, f),
        is_public_key_of(public_key, g, tg, private_key),
        m1.is_canonical(),
        s1.is_canonical(),
        e1.is_canonical(),
        is_encryption(c1, m1, public_key.h, s1, e1),
        m2.is_canonical(),
        s2.is_canonical(),
        e2.is_canonical(),
        is_encryption(c2, m2, public_key.h, s2, e2),
        c.is_canonical(),
        forall|i: int| #[trigger] c.coeff(i) == (c1.coeff(i) + c2.coeff(i)) % C::spec_modulus(),
        forall|i: int| 0 <= i < C::spec_max_poly_degree() ==> #[trigger] m1.coeff(i) < C::spec_t(),
        forall|i: int| 0 <= i < C::spec_max_poly_degree() ==> #[trigger] m2.coeff(i) < C::spec_t(),
        2 * (C::spec_t() - 1) < C::spec_modulus(),
        forall|i: int|
            0 <= i < C::spec_max_poly_degree() ==> -((C::spec_modulus() - 1) / 2) <= C::spec_t() * #[trigger] addition_noise(
                f,
                g,
                s1,
                e1,
                m1,
                s2,
                e2,
                m2,
                i,
            ) - (C::spec_modulus() % (C::spec_t() as int)) * ((m1.coeff(i) + m2.coeff(i)) % (C::spec_t() as int)) <= (
            C::spec_modulus() - 1) / 2,
    ensures
        forall|i: int|
            0 <= i < C::spec_max_poly_degree() ==> #[trigger] decode::<C>(get(ring_product(c, private_key.priv_key), i))
                == ((m1.coeff(i) + m2.coeff(i)) % C::spec_modulus()) % (C::spec_t() as int),
{
    C::lemma_conf_valid();
    C::lemma_yashe_conf_valid();
    let n = C::spec_max_poly_degree();
    let q = C::spec_modulus();
    let t = C::spec_t() as int;
    let d = delta::<C>();
    let r = q % t;
    let ff = private_key.priv_key.ints();
    let cc = c.ints();
    let c1s = c1.ints();
    let c2s = c2.ints();
    lemma_encryption_times_key(f, g, tg, private_key, public_key, m1, s1, e1, c1);
    lemma_encryption_times_key(f, g, tg, private_key, public_key, m2, s2, e2, c2);
    lemma_canonical_facts(c);
    lemma_canonical_facts(c1);
    lemma_canonical_facts(c2);
    lemma_canonical_facts(m1);
    lemma_canonical_facts(m2);
    lemma_canonical_facts(private_key.priv_key);
    let sum12 = Seq::new(n, |i: int| get(c1s, i) + get(c2s, i));
    assert forall|i: int| #[trigger] get(cc, i) % q == get(sum12, i) % q by {
        assert(c.coeff(i) == (c1.coeff(i) + c2.coeff(i)) % q);
        lemma_mod_twice(c1.coeff(i) + c2.coeff(i), q);
        if !(0 <= i < n) {
            assert(c1.coeff(i) == 0 && c2.coeff(i) == 0);
        }
    }
    assert forall|i: int| #[trigger] get(ff, i) % q == get(ff, i) % q by {}
    assert forall|i: int| #[trigger] get(sum12, i) == get(c1s, i) + get(c2s, i) by {}
    lemma_fundamental_div_mod(q, t);
    assert forall|k: int| 0 <= k < n implies #[trigger] decode::<C>(get(ring_product(c, private_key.priv_key), k))
        == ((m1.coeff(k) + m2.coeff(k)) % q) % t by {
        let v1 = decryption_noise(f, g, s1, e1, m1, k);
        let v2 = decryption_noise(f, g, s2, e2, m2, k);
        let mk = m1.coeff(k) + m2.coeff(k);
        let carry = mk / t;
        let low = mk % t;
        let noise = addition_noise(f, g, s1, e1, m1, s2, e2, m2, k);
        let x = get(ring_product(c, private_key.priv_key), k);
        let x1 = get(ring_product(c1, private_key.priv_key), k);
        let x2 = get(ring_product(c2, private_key.priv_key), k);
        lemma_ring_mul_nega(cc, ff, n, q, k);
        lemma_ring_mul_nega(c1s, ff, n, q, k);
        lemma_ring_mul_nega(c2s, ff, n, q, k);
        lemma_nega_cong(cc, sum12, ff, ff, n, q, k);
        lemma_nega_add_left(sum12, c1s, c2s, ff, n, k);
        // x = x1 + x2 = d m1 + v1 + d m2 + v2, modulo q
        let n1 = nega(c1s, ff, n, k);
        let n2 = nega(c2s, ff, n, k);
        let n0 = nega(cc, ff, n, k);
        assert(x == n0 % q);
        assert(x1 == n1 % q);
        assert(x2 == n2 % q);
        lemma_mod_twice(n0, q);
        assert(n0 % q == (n1 + n2) % q);
        lemma_mod_twice(n1, q);
        lemma_mod_twice(n2, q);
        lemma_mod_lin(n1, x1, n2, x2, 1, 1, q);
        assert((n1 + n2) % q == (x1 + x2) % q);
        lemma_mod_twice(d * m1.coeff(k) + v1, q);
        lemma_mod_twice(d * m2.coeff(k) + v2, q);
        lemma_mod_lin(x1, d * m1.coeff(k) + v1, x2, d * m2.coeff(k) + v2, 1, 1, q);
        assert((x1 + x2) % q == (d * m1.coeff(k) + v1 + (d * m2.coeff(k) + v2)) % q);
        assert(x % q == (d * m1.coeff(k) + v1 + (d * m2.coeff(k) + v2)) % q);
        // the carry past t: d t = q - (q mod t)
        lemma_fundamental_div_mod(mk, t);
        assert(d * m1.coeff(k) + v1 + (d * m2.coeff(k) + v2) == (d * low + noise) + q * carry) by (nonlinear_arith)
            requires
                mk == m1.coeff(k) + m2.coeff(k),
                mk == t * carry + low,
                q == t * d + r,
                noise == v1 + v2 - r * carry;
        lemma_mod_multiples_vanish(carry, d * low + noise, q);
        assert((d * low + noise) + q * carry == q * carry + (d * low + noise));
        lemma_mod_bound(mk, t);
        lemma_mod_bound(nega(cc, ff, n, k), q);
        lemma_mod_twice(nega(cc, ff, n, k), q);
        lemma_decode_noise(x, low, noise, q, t);
        lemma_small_mod(mk as nat, q as nat);
    }
}

} // verus!
