//! Signed integers wider than 128 bits, for the exact intermediate values of ciphertext
//! multiplication: a value is `hi * 2^64 + lo`, with a signed high part and an unsigned low part.
use vstd::arithmetic::div_mod::*;
use vstd::arithmetic::mul::*;
use vstd::prelude::*;

verus! {

/// `2^64`, the radix of the low part.
pub open spec fn radix() -> int {
    0x1_0000_0000_0000_0000
}

/// A signed integer `hi * 2^64 + lo`.
#[derive(Copy, Clone, Debug, PartialEq, Eq)]
pub struct Wide {
    /// The high part, signed.
    pub hi: i128,
    /// The low part, in `[0, 2^64)`.
    pub lo: u64,
}

impl Wide {
    /// The integer this value represents.
    pub open spec fn value(self) -> int {
        self.hi * radix() + self.lo
    }
}

/// The bound on the high part that keeps every operation here free of overflow.
pub open spec fn hi_in_range(hi: int) -> bool {
    -0x1000_0000_0000_0000_0000_0000_0000_0000 <= hi <= 0x1000_0000_0000_0000_0000_0000_0000_0000
}

/// Values whose high part is in range: magnitude up to about `2^188`.
pub open spec fn wide_in_range(x: int) -> bool {
    -0x1000_0000_0000_0000_0000_0000_0000_0000 * radix() <= x < 0x1000_0000_0000_0000_0000_0000_0000_0000 * radix()
}

/// Division rounding towards zero, as integer division does on signed values.
pub open spec fn trunc_div(a: int, d: int) -> int {
    if a >= 0 {
        a / d
    } else {
        -((-a) / d)
    }
}

/// The high part of a value in range is in range.
proof fn lemma_parts(x: int, hi: int, lo: int)
    requires
        wide_in_range(x),
        x == hi * radix() + lo,
        0 <= lo < radix(),
    ensures
        hi_in_range(hi),
{
    assert(hi_in_range(hi)) by (nonlinear_arith)
        requires
            -0x1000_0000_0000_0000_0000_0000_0000_0000 * radix() <= x < 0x1000_0000_0000_0000_0000_0000_0000_0000 * radix(),
            x == hi * radix() + lo,
            0 <= lo < radix(),
            radix() == 0x1_0000_0000_0000_0000;
}

/// Splits a non-negative `u128` into its high and low 64-bit parts.
fn split_u128(x: u128) -> (r: (u128, u64))
    ensures
        x == r.0 * radix() + r.1,
        r.0 < radix(),
{
    let hi = x / 0x1_0000_0000_0000_0000u128;
    let lo = (x % 0x1_0000_0000_0000_0000u128) as u64;
    (hi, lo)
}

/// The wide value of an `i128`.
pub fn wide_from_i128(x: i128) -> (r: Wide)
    ensures
        r.value() == x,
{
    if x >= 0 {
        let (hi, lo) = split_u128(x as u128);
        Wide { hi: hi as i128, lo }
    } else {
        // x = -(m + 1), with m >= 0
        let m = (-(x + 1)) as u128;
        let (hi, lo) = split_u128(m);
        let r = Wide { hi: -(hi as i128) - 1, lo: (0xffff_ffff_ffff_ffffu128 - lo as u128) as u64 };
        assert(r.value() == -(hi * radix() + lo) - 1) by (nonlinear_arith)
            requires
                r.value() == r.hi * radix() + r.lo,
                r.hi == -hi - 1,
                r.lo == 0xffff_ffff_ffff_ffff - lo,
                radix() == 0x1_0000_0000_0000_0000;
        r
    }
}

/// `a + b`.
pub fn wide_add(a: Wide, b: Wide) -> (r: Wide)
    requires
        wide_in_range(a.value() + b.value()),
    ensures
        r.value() == a.value() + b.value(),
{
    let s = a.lo as u128 + b.lo as u128;
    let (carry, lo) = split_u128(s);
    proof {
        assert(carry <= 1) by (nonlinear_arith)
            requires s == carry * radix() + lo, s < 2 * radix(), lo >= 0, radix() == 0x1_0000_0000_0000_0000;
        let hi = a.hi + b.hi + carry;
        assert(a.value() + b.value() == hi * radix() + lo) by (nonlinear_arith)
            requires
                a.value() == a.hi * radix() + a.lo,
                b.value() == b.hi * radix() + b.lo,
                s == a.lo + b.lo,
                s == carry * radix() + lo,
                hi == a.hi + b.hi + carry;
        lemma_parts(a.value() + b.value(), hi, lo as int);
    }
    Wide { hi: a.hi + b.hi + carry as i128, lo }
}

/// `-a`.
pub fn wide_neg(a: Wide) -> (r: Wide)
    requires
        wide_in_range(-a.value()),
    ensures
        r.value() == -a.value(),
{
    if a.lo == 0 {
        proof {
            assert(-a.value() == (-a.hi) * radix() + 0) by (nonlinear_arith)
                requires a.value() == a.hi * radix() + a.lo, a.lo == 0;
            lemma_parts(-a.value(), -a.hi, 0);
        }
        Wide { hi: -a.hi, lo: 0 }
    } else {
        let lo = (0x1_0000_0000_0000_0000u128 - a.lo as u128) as u64;
        proof {
            assert(-a.value() == (-a.hi - 1) * radix() + lo) by (nonlinear_arith)
                requires
                    a.value() == a.hi * radix() + a.lo,
                    lo == radix() - a.lo,
                    radix() == 0x1_0000_0000_0000_0000;
            lemma_parts(-a.value(), -a.hi - 1, lo as int);
        }
        Wide { hi: -a.hi - 1, lo }
    }
}

/// `a - b`.
pub fn wide_sub(a: Wide, b: Wide) -> (r: Wide)
    requires
        wide_in_range(b.value()),
        -radix() * 0x1000_0000_0000_0000_0000_0000_0000_0000 < b.value(),
        wide_in_range(a.value() - b.value()),
    ensures
        r.value() == a.value() - b.value(),
{
    let nb = wide_neg(b);
    wide_add(a, nb)
}

/// `a < b`.
pub fn wide_lt(a: Wide, b: Wide) -> (r: bool)
    ensures
        r == (a.value() < b.value()),
{
    proof {
        assert(a.hi < b.hi ==> a.value() < b.value()) by (nonlinear_arith)
            requires
                a.value() == a.hi * radix() + a.lo,
                b.value() == b.hi * radix() + b.lo,
                0 <= a.lo < radix(),
                0 <= b.lo < radix();
        assert(a.hi > b.hi ==> a.value() > b.value()) by (nonlinear_arith)
            requires
                a.value() == a.hi * radix() + a.lo,
                b.value() == b.hi * radix() + b.lo,
                0 <= a.lo < radix(),
                0 <= b.lo < radix();
    }
    a.hi < b.hi || (a.hi == b.hi && a.lo < b.lo)
}

/// `a * t`, for a small factor `t`.
pub fn wide_mul_small(a: Wide, t: u64) -> (r: Wide)
    requires
        wide_in_range(a.value() * t),
    ensures
        r.value() == a.value() * t,
{
    proof {
        assert(a.lo * t <= u128::MAX) by (nonlinear_arith)
            requires a.lo < 0x1_0000_0000_0000_0000, t < 0x1_0000_0000_0000_0000, a.lo >= 0, t >= 0;
    }
    let p = a.lo as u128 * t as u128;
    let (carry, lo) = split_u128(p);
    proof {
        assert(a.value() * t == (a.hi * t + carry) * radix() + lo) by (nonlinear_arith)
            requires
                a.value() == a.hi * radix() + a.lo,
                p == a.lo * t,
                p == carry * radix() + lo;
        lemma_parts(a.value() * t, a.hi * t + carry, lo as int);
        assert(-0x2000_0000_0000_0000_0000_0000_0000_0000 <= a.hi * t <= 0x2000_0000_0000_0000_0000_0000_0000_0000) by (nonlinear_arith)
            requires
                hi_in_range(a.hi * t + carry),
                0 <= carry < radix();
    }
    Wide { hi: a.hi * (t as i128) + carry as i128, lo }
}

/// `a / d` for a non-negative `a`, by long division of the high part, then of the low part in two
/// 32-bit halves.
fn wide_div_nonneg(a: Wide, d: u128) -> (r: u128)
    requires
        a.value() >= 0,
        hi_in_range(a.hi as int),
        0 < d < 0x1_0000_0000_0000_0000_0000,
        a.value() / (d as int) <= u128::MAX,
    ensures
        r == a.value() / (d as int),
{
    let h = a.hi as u128;
    proof {
        assert(a.hi >= 0) by (nonlinear_arith)
            requires a.value() == a.hi * radix() + a.lo, a.value() >= 0, 0 <= a.lo < radix();
    }
    let q1 = h / d;
    let r1 = h % d;
    let lo_hi = (a.lo / 0x1_0000_0000u64) as u128;
    let lo_lo = (a.lo % 0x1_0000_0000u64) as u128;
    let t1 = r1 * 0x1_0000_0000u128 + lo_hi;
    let q2 = t1 / d;
    let r2 = t1 % d;
    let t2 = r2 * 0x1_0000_0000u128 + lo_lo;
    let q3 = t2 / d;
    let r3 = t2 % d;
    proof {
        let x = a.value();
        let di = d as int;
        lemma_fundamental_div_mod(h as int, di);
        lemma_fundamental_div_mod(t1 as int, di);
        lemma_fundamental_div_mod(t2 as int, di);
        lemma_mod_bound(h as int, di);
        lemma_mod_bound(t1 as int, di);
        lemma_mod_bound(t2 as int, di);
        assert(q2 < 0x1_0000_0000) by (nonlinear_arith)
            requires t1 == di * q2 + r2, r2 >= 0, t1 < di * 0x1_0000_0000, di > 0;
        assert(q3 < 0x1_0000_0000) by (nonlinear_arith)
            requires t2 == di * q3 + r3, r3 >= 0, t2 < di * 0x1_0000_0000, di > 0;
        let quo = q1 * radix() + q2 * 0x1_0000_0000 + q3;
        assert(x == di * q1 * radix() + t1 * 0x1_0000_0000 + lo_lo) by (nonlinear_arith)
            requires
                x == h * radix() + a.lo,
                a.lo == lo_hi * 0x1_0000_0000 + lo_lo,
                h == di * q1 + r1,
                t1 == r1 * 0x1_0000_0000 + lo_hi,
                radix() == 0x1_0000_0000_0000_0000;
        assert(t1 * 0x1_0000_0000 + lo_lo == di * q2 * 0x1_0000_0000 + t2) by (nonlinear_arith)
            requires
                t1 == di * q2 + r2,
                t2 == r2 * 0x1_0000_0000 + lo_lo;
        assert(di * q1 * radix() + di * q2 * 0x1_0000_0000 + di * q3 == di * quo) by (nonlinear_arith)
            requires quo == q1 * radix() + q2 * 0x1_0000_0000 + q3;
        assert(x == di * quo + r3);
        lemma_fundamental_div_mod_converse(x, di, quo, r3 as int);
        assert(q1 * radix() <= quo);
        assert(q1 < 0x1_0000_0000_0000_0000) by (nonlinear_arith)
            requires q1 * radix() <= quo, quo <= u128::MAX, radix() == 0x1_0000_0000_0000_0000, q1 >= 0;
    }
    q1 * 0x1_0000_0000_0000_0000u128 + q2 * 0x1_0000_0000u128 + q3
}

/// `a / d`, rounding towards zero.
pub fn wide_div_trunc(a: Wide, d: u128) -> (r: i128)
    requires
        wide_in_range(a.value()),
        wide_in_range(-a.value()),
        0 < d < 0x1_0000_0000_0000_0000_0000,
        -0x4000_0000_0000_0000_0000_0000_0000_0000 <= trunc_div(a.value(), d as int) <= 0x4000_0000_0000_0000_0000_0000_0000_0000,
    ensures
        r == trunc_div(a.value(), d as int),
{
    if a.hi >= 0 {
        proof {
            assert(a.value() >= 0) by (nonlinear_arith)
                requires a.value() == a.hi * radix() + a.lo, a.hi >= 0, a.lo >= 0;
            lemma_parts(a.value(), a.hi as int, a.lo as int);
        }
        let q = wide_div_nonneg(a, d);
        q as i128
    } else {
        proof {
            assert(a.value() < 0) by (nonlinear_arith)
                requires a.value() == a.hi * radix() + a.lo, a.hi < 0, a.lo < radix();
        }
        let n = wide_neg(a);
        proof {
            lemma_parts(n.value(), n.hi as int, n.lo as int);
        }
        let q = wide_div_nonneg(n, d);
        -(q as i128)
    }
}

} // verus!
