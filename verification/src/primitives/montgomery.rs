//! Montgomery multiplication of full-resolution coefficients held as two 64-bit limbs, the
//! reference for limb-level (GPU) field arithmetic.
use vstd::arithmetic::div_mod::*;
use vstd::prelude::*;

use crate::primitives::poly::conf::FQ79_MODULUS;

verus! {

/// `2^64`, the radix of a limb.
pub open spec fn limb_radix() -> int {
    0x1_0000_0000_0000_0000
}

/// The value of a little-endian pair of limbs.
pub open spec fn limbs(x: [u64; 2]) -> int {
    x@[0] + x@[1] * limb_radix()
}

/// The low limb of the full-resolution modulus `q`.
pub const MODULUS_LOW: u64 = 3665413131622735873u64;

/// The high limb of the full-resolution modulus `q`.
pub const MODULUS_HIGH: u64 = 26884u64;

/// `-q^(-1) mod 2^64`, which makes the low limb vanish in each Montgomery step.
pub const MONT_INV: u64 = 13426823977581207551u64;

/// `2^(-128) mod q`: a Montgomery product `a b 2^(-128)` times `2^128` is `a b`.
pub const R_INV: u128 = 242210205320934764651731u128;

/// `a + b c` as a low limb and a carry: `r + carry 2^64 = a + b c`.
fn mac(a: u64, b: u64, c: u64, carry: &mut u64) -> (r: u64)
    ensures
        r + *final(carry) * limb_radix() == a + b * c,
{
    proof {
        assert(b * c <= 0xffff_ffff_ffff_ffff * 0xffff_ffff_ffff_ffff) by (nonlinear_arith)
            requires b <= 0xffff_ffff_ffff_ffffu64, c <= 0xffff_ffff_ffff_ffffu64;
    }
    let tmp: u128 = (a as u128) + (b as u128) * (c as u128);
    *carry = (tmp / 0x1_0000_0000_0000_0000u128) as u64;
    (tmp % 0x1_0000_0000_0000_0000u128) as u64
}

/// `a + b c + carry` as a low limb and a new carry.
fn mac_with_carry(a: u64, b: u64, c: u64, carry: &mut u64) -> (r: u64)
    ensures
        r + *final(carry) * limb_radix() == a + b * c + *old(carry),
{
    proof {
        assert(b * c <= 0xffff_ffff_ffff_ffff * 0xffff_ffff_ffff_ffff) by (nonlinear_arith)
            requires b <= 0xffff_ffff_ffff_ffffu64, c <= 0xffff_ffff_ffff_ffffu64;
    }
    let tmp: u128 = (a as u128) + (b as u128) * (c as u128) + (*carry as u128);
    *carry = (tmp / 0x1_0000_0000_0000_0000u128) as u64;
    (tmp % 0x1_0000_0000_0000_0000u128) as u64
}

/// The carry of `a + b c`, discarding the low limb.
fn mac_discard(a: u64, b: u64, c: u64, carry: &mut u64)
    ensures
        *final(carry) == (a + b * c) / limb_radix(),
{
    proof {
        assert(b * c <= 0xffff_ffff_ffff_ffff * 0xffff_ffff_ffff_ffff) by (nonlinear_arith)
            requires b <= 0xffff_ffff_ffff_ffffu64, c <= 0xffff_ffff_ffff_ffffu64;
    }
    let tmp: u128 = (a as u128) + (b as u128) * (c as u128);
    *carry = (tmp / 0x1_0000_0000_0000_0000u128) as u64;
}

/// `-q^(-1)` cancels the low limb of `q` modulo `2^64`: `x + ((x MONT_INV) mod 2^64) q_0` is a
/// multiple of `2^64`.
proof fn lemma_mont_inv(x: int)
    ensures
        (x + ((x * MONT_INV) % limb_radix()) * MODULUS_LOW) % limb_radix() == 0,
{
    let rr = limb_radix();
    let k = (x * MONT_INV) % rr;
    assert(MONT_INV * MODULUS_LOW + 1 == rr * 2667942739746391539);
    lemma_fundamental_div_mod(x * MONT_INV, rr);
    let j = (x * MONT_INV) / rr;
    assert(x + k * MODULUS_LOW == rr * (x * 2667942739746391539 - j * MODULUS_LOW)) by (nonlinear_arith)
        requires
            x * MONT_INV == rr * j + k,
            MONT_INV * MODULUS_LOW + 1 == rr * 2667942739746391539,
            rr == 0x1_0000_0000_0000_0000,
    ;
    lemma_mod_multiples_basic(x * 2667942739746391539 - j * MODULUS_LOW, rr);
    vstd::arithmetic::mul::lemma_mul_is_commutative(rr, x * 2667942739746391539 - j * MODULUS_LOW);
}

/// The multiple of `q` that a Montgomery step adds: `(res 2^64 - r - a b_i) / q`.
pub open spec fn step_multiple(r: [u64; 2], a: [u64; 2], bi: u64, res: [u64; 2]) -> int {
    (limbs(res) * limb_radix() - limbs(r) - limbs(a) * bi) / (FQ79_MODULUS as int)
}

/// One step of Montgomery multiplication: `(r + a b_i + k q) / 2^64` for the `k` that makes the
/// sum a multiple of `2^64`, with the carries of the high limbs added without a third limb.
fn mont_step(r: [u64; 2], a: [u64; 2], bi: u64) -> (res: [u64; 2])
    requires
        limbs(r) < 2 * FQ79_MODULUS,
        limbs(a) < FQ79_MODULUS,
    ensures
        limbs(res) < 2 * FQ79_MODULUS,
        limbs(res) * limb_radix() == limbs(r) + limbs(a) * bi + FQ79_MODULUS * step_multiple(r, a, bi, res),
{
    let ghost rr: int = limb_radix();
    let ghost q: int = FQ79_MODULUS as int;
    assert(q == MODULUS_LOW + MODULUS_HIGH * rr);
    let mut carry1: u64 = 0;
    let r0 = mac(r[0], a[0], bi, &mut carry1);
    let ghost c1 = carry1;
    let k: u64 = (((r0 as u128) * (MONT_INV as u128)) % 0x1_0000_0000_0000_0000u128) as u64;
    let mut carry2: u64 = 0;
    mac_discard(r0, k, MODULUS_LOW, &mut carry2);
    proof {
        lemma_mont_inv(r0 as int);
        lemma_fundamental_div_mod(r0 + k * MODULUS_LOW, rr);
        assert(r0 + k * MODULUS_LOW == carry2 * rr) by (nonlinear_arith)
            requires
                r0 + k * MODULUS_LOW == rr * ((r0 + k * MODULUS_LOW) / rr) + (r0 + k * MODULUS_LOW) % rr,
                (r0 + k * MODULUS_LOW) % rr == 0,
                carry2 == (r0 + k * MODULUS_LOW) / rr,
        ;
    }
    let ghost c2 = carry2;
    let r1 = mac_with_carry(r[1], a[1], bi, &mut carry1);
    let r0b = mac_with_carry(r1, k, MODULUS_HIGH, &mut carry2);
    proof {
        let t = limbs(r) + limbs(a) * bi + k * q;
        assert((a[0] + a[1] * rr) * bi == a[0] * bi + rr * (a[1] * bi)) by (nonlinear_arith)
            requires rr == 0x1_0000_0000_0000_0000;
        assert(k * q == k * MODULUS_LOW + rr * (k * MODULUS_HIGH)) by (nonlinear_arith)
            requires q == MODULUS_LOW + MODULUS_HIGH * rr, rr == 0x1_0000_0000_0000_0000;
        assert(t == rr * (r0b + (carry1 + carry2) * rr));
        assert(t < 2 * q * rr) by (nonlinear_arith)
            requires
                t == limbs(r) + limbs(a) * bi + k * q,
                0 <= limbs(r) < 2 * q,
                0 <= limbs(a) < q,
                0 <= bi < rr,
                0 <= k < rr,
                q > 0,
        ;
        assert(r0b + (carry1 + carry2) * rr < 2 * q) by (nonlinear_arith)
            requires
                t == rr * (r0b + (carry1 + carry2) * rr),
                t < 2 * q * rr,
                rr > 0,
        ;
        assert(carry1 + carry2 < 0x1_0000) by (nonlinear_arith)
            requires
                r0b + (carry1 + carry2) * rr < 2 * q,
                r0b >= 0,
                q == 495925933090739208380417,
                rr == 0x1_0000_0000_0000_0000,
        ;
    }
    let res = [r0b, carry1 + carry2];
    proof {
        assert(limbs(res) == r0b + (carry1 + carry2) * rr);
        assert(limbs(res) * rr == limbs(r) + limbs(a) * bi + k * q) by (nonlinear_arith)
            requires
                limbs(r) + limbs(a) * bi + k * q == rr * (r0b + (carry1 + carry2) * rr),
                limbs(res) == r0b + (carry1 + carry2) * rr,
        ;
        assert(limbs(res) * rr - limbs(r) - limbs(a) * bi == q * k) by (nonlinear_arith)
            requires
                limbs(res) * rr == limbs(r) + limbs(a) * bi + k * q,
        ;
        vstd::arithmetic::div_mod::lemma_div_multiples_vanish(k as int, q);
    }
    res
}

/// Montgomery multiplication of two full-resolution coefficients held as two 64-bit limbs:
/// `a b 2^(-128) mod q`, reduced below `q`.
pub fn mul_limbs_u64(a: [u64; 2], b: [u64; 2]) -> (r: [u64; 2])
    requires
        limbs(a) < FQ79_MODULUS,
        limbs(b) < FQ79_MODULUS,
    ensures
        0 <= limbs(r) < FQ79_MODULUS,
        (limbs(r) * (limb_radix() * limb_radix())) % (FQ79_MODULUS as int) == (limbs(a) * limbs(b)) % (FQ79_MODULUS as int),
        limbs(r) == (limbs(a) * limbs(b) * R_INV) % (FQ79_MODULUS as int),
{
    let ghost rr: int = limb_radix();
    let ghost q: int = FQ79_MODULUS as int;
    let zero: [u64; 2] = [0u64, 0u64];
    proof {
        assert(limbs(zero) == 0);
    }
    let r1 = mont_step(zero, a, b[0]);
    let r2 = mont_step(r1, a, b[1]);
    let ghost k0 = step_multiple(zero, a, b[0], r1);
    let ghost k1 = step_multiple(r1, a, b[1], r2);
    let v: u128 = (r2[1] as u128) * 0x1_0000_0000_0000_0000u128 + (r2[0] as u128);
    let w: u128 = if v >= FQ79_MODULUS {
        v - FQ79_MODULUS
    } else {
        v
    };
    let res = [(w % 0x1_0000_0000_0000_0000u128) as u64, (w / 0x1_0000_0000_0000_0000u128) as u64];
    proof {
        let va = limbs(a);
        let vb = limbs(b);
        let v2 = limbs(r2);
        assert(v == v2);
        lemma_fundamental_div_mod(w as int, rr);
        lemma_mod_bound(w as int, rr);
        assert(limbs(res) == w);
        // r2 2^128 = a b + (k0 + k1 2^64) q
        assert(va * vb == va * b[0] + rr * (va * b[1])) by (nonlinear_arith)
            requires vb == b[0] + b[1] * rr, rr == 0x1_0000_0000_0000_0000;
        assert(v2 * (rr * rr) == va * vb + (k0 + k1 * rr) * q);
        assert(w * (rr * rr) == va * vb + (k0 + k1 * rr - (if v >= q { rr * rr } else { 0 })) * q) by (nonlinear_arith)
            requires
                v2 * (rr * rr) == va * vb + (k0 + k1 * rr) * q,
                w == v2 - (if v2 >= q { q } else { 0 }),
                v == v2,
        ;
        lemma_mod_multiples_vanish(k0 + k1 * rr - (if v >= q { rr * rr } else { 0 }), va * vb, q);
        assert(w * (rr * rr) == q * (k0 + k1 * rr - (if v >= q { rr * rr } else { 0 })) + va * vb);
        // times 2^(-128)
        assert(R_INV * (rr * rr) == 1 + q * 166193894006212139325595046438482272255);
        let m = k0 + k1 * rr - (if v >= q { rr * rr } else { 0 });
        assert(va * vb * R_INV == w + q * (w * 166193894006212139325595046438482272255 - m * R_INV)) by (nonlinear_arith)
            requires
                w * (rr * rr) == q * m + va * vb,
                R_INV * (rr * rr) == 1 + q * 166193894006212139325595046438482272255,
        ;
        lemma_mod_multiples_vanish(w * 166193894006212139325595046438482272255 - m * R_INV, w as int, q);
        lemma_small_mod(w as nat, q as nat);
        assert(va * vb * R_INV == q * (w * 166193894006212139325595046438482272255 - m * R_INV) + w);
    }
    res
}

} // verus!
