//! Primality of the coefficient moduli, by Fermat's little theorem and Pocklington's criterion.
use vstd::arithmetic::div_mod::*;
use vstd::arithmetic::mul::*;
use vstd::arithmetic::power::*;
use vstd::prelude::*;

use crate::primitives::field::{divides, is_prime, lemma_int_bezout, lemma_prime_product};

verus! {

/// The binomial coefficient `n` choose `k`, by Pascal's rule.
pub open spec fn binom(n: nat, k: nat) -> nat
    decreases n,
{
    if k == 0 {
        1
    } else if n == 0 {
        0
    } else {
        binom((n - 1) as nat, (k - 1) as nat) + binom((n - 1) as nat, k)
    }
}

/// The first `k` terms of the binomial expansion of `(x + 1)^n`.
pub open spec fn binom_sum(x: int, n: nat, k: nat) -> int
    decreases k,
{
    if k == 0 {
        0
    } else {
        binom_sum(x, n, (k - 1) as nat) + binom(n, (k - 1) as nat) * pow(x, (k - 1) as nat)
    }
}

proof fn lemma_binom_past_n(n: nat, k: nat)
    requires
        k > n,
    ensures
        binom(n, k) == 0,
    decreases n,
{
    if n > 0 {
        lemma_binom_past_n((n - 1) as nat, (k - 1) as nat);
        lemma_binom_past_n((n - 1) as nat, k);
    }
}

/// One step of Pascal's rule on the partial sums.
proof fn lemma_binom_sum_step(x: int, n: nat, k: nat)
    ensures
        binom_sum(x, n + 1, k + 1) == binom_sum(x, n, k + 1) + x * binom_sum(x, n, k),
    decreases k,
{
    if k == 0 {
        assert(binom_sum(x, n + 1, 0) == 0);
        assert(binom_sum(x, n, 0) == 0);
        assert(binom_sum(x, n + 1, 1) == binom(n + 1, 0) * pow(x, 0));
        assert(binom_sum(x, n, 1) == binom(n, 0) * pow(x, 0));
    } else {
        lemma_binom_sum_step(x, n, (k - 1) as nat);
        let k1 = (k - 1) as nat;
        assert(binom(n + 1, k) == binom(n, k1) + binom(n, k));
        reveal(pow);
        assert(pow(x, k) == x * pow(x, k1));
        let a = binom_sum(x, n, k);
        let b = binom_sum(x, n, k1);
        let c = binom(n, k1) as int;
        let d = binom(n, k) as int;
        let pk1 = pow(x, k1);
        assert(binom_sum(x, n + 1, k + 1) == binom_sum(x, n + 1, k) + (c + d) * (x * pk1));
        assert(a == b + c * pk1);
        assert(binom_sum(x, n, k + 1) == a + d * (x * pk1));
        assert((c + d) * (x * pk1) == d * (x * pk1) + x * (c * pk1)) by (nonlinear_arith);
        assert(x * a == x * b + x * (c * pk1)) by (nonlinear_arith)
            requires
                a == b + c * pk1,
        ;
    }
}

/// The binomial theorem: `(x + 1)^n` is the sum of `binom(n, i) x^i`.
pub proof fn lemma_binomial_theorem(x: int, n: nat)
    ensures
        pow(x + 1, n) == binom_sum(x, n, n + 1),
    decreases n,
{
    reveal(pow);
    if n == 0 {
        assert(binom_sum(x, 0, 0) == 0);
        assert(binom_sum(x, 0, 1) == binom(0, 0) * pow(x, 0));
    } else {
        let m = (n - 1) as nat;
        lemma_binomial_theorem(x, m);
        lemma_binom_sum_step(x, m, n);
        lemma_binom_past_n(m, n);
        assert(binom_sum(x, m, n + 1) == binom_sum(x, m, n));
        let s = binom_sum(x, m, n);
        assert(pow(x + 1, n) == (x + 1) * s);
        assert((x + 1) * s == s + x * s) by (nonlinear_arith);
    }
}

/// The absorption identity `k binom(n, k) == n binom(n - 1, k - 1)`.
proof fn lemma_binom_absorb(n: nat, k: nat)
    requires
        n >= 1,
        k >= 1,
    ensures
        k * binom(n, k) == n * binom((n - 1) as nat, (k - 1) as nat),
    decreases n, k,
{
    let n1 = (n - 1) as nat;
    let k1 = (k - 1) as nat;
    if n == 1 {
        if k > 1 {
            lemma_binom_past_n(1, k);
            lemma_binom_past_n(0, k1);
            assert(k * binom(n, k) == 0 && n * binom(0, k1) == 0) by (nonlinear_arith)
                requires
                    binom(n, k) == 0,
                    binom(0, k1) == 0,
            ;
        } else {
            assert(binom(0, 1) == 0);
            assert(binom(1, 1) == binom(0, 0) + binom(0, 1));
            assert(k * binom(n, k) == n * binom(n1, k1));
        }
    } else {
        // binom(n, k) = binom(n1, k1) + binom(n1, k)
        assert(binom(n, k) == binom(n1, k1) + binom(n1, k));
        lemma_binom_absorb(n1, k);
        // k binom(n1, k) == n1 binom(n1 - 1, k1)
        let n2 = (n1 - 1) as nat;
        if k == 1 {
            assert(binom(n1, 0) == 1);
            assert(binom(n2, 0) == 1);
            assert(binom(n1, 1) == n1 * binom(n2, 0));
            assert(n1 * binom(n2, 0) == n1) by (nonlinear_arith)
                requires
                    binom(n2, 0) == 1,
            ;
            assert(binom(n, 1) == binom(n1, 0) + binom(n1, 1));
            assert(n * binom(n1, 0) == n);
            assert(binom(n, 1) == n);
            assert(k * binom(n, k) == n * binom(n1, k1));
        } else {
            let k2 = (k1 - 1) as nat;
            lemma_binom_absorb(n1, k1);
            // k1 binom(n1, k1) == n1 binom(n2, k2)
            assert(binom(n1, k1) == binom(n2, k2) + binom(n2, k1));
            let a = binom(n1, k1) as int;
            let b = binom(n1, k) as int;
            let c = binom(n2, k2) as int;
            let d = binom(n2, k1) as int;
            assert(k * (a + b) == n * a) by (nonlinear_arith)
                requires
                    k * b == n1 * d,
                    k1 * a == n1 * c,
                    a == c + d,
                    k1 == k - 1,
                    n1 == n - 1,
            ;
            assert(k * binom(n, k) == n * binom(n1, k1));
        }
    }
}

/// A prime `p` divides `binom(p, k)` for `0 < k < p`.
proof fn lemma_prime_divides_binom(p: nat, k: nat)
    requires
        is_prime(p as int),
        0 < k < p,
    ensures
        (binom(p, k) as int) % (p as int) == 0,
{
    lemma_binom_absorb(p, k);
    let c = binom((p - 1) as nat, (k - 1) as nat) as int;
    lemma_mod_multiples_basic(c, p as int);
    assert((p * c) % (p as int) == 0) by (nonlinear_arith)
        requires
            (c * p) % (p as int) == 0,
    ;
    lemma_small_mod(k, p);
    if (binom(p, k) as int) % (p as int) != 0 {
        lemma_prime_product(p as int, k as int, binom(p, k) as int);
    }
}

/// All the middle terms of the expansion of `(x + 1)^p` vanish modulo a prime `p`.
proof fn lemma_binom_sum_middle(x: int, p: nat, k: nat)
    requires
        is_prime(p as int),
        1 <= k <= p,
    ensures
        (binom_sum(x, p, k) - 1) % (p as int) == 0,
    decreases k,
{
    if k == 1 {
        assert(binom_sum(x, p, 0) == 0);
        reveal(pow);
        assert(binom_sum(x, p, 1) == binom(p, 0) * pow(x, 0));
        lemma_small_mod(0, p);
    } else {
        let k1 = (k - 1) as nat;
        lemma_binom_sum_middle(x, p, k1);
        lemma_prime_divides_binom(p, k1);
        let b = binom(p, k1) as int;
        let t = b * pow(x, k1);
        lemma_mul_mod_noop_left(b, pow(x, k1), p as int);
        lemma_small_mod(0, p);
        assert(t % (p as int) == 0) by {
            lemma_mul_basics(pow(x, k1) % (p as int));
            lemma_mul_mod_noop_right(0, pow(x, k1), p as int);
        }
        lemma_add_mod_noop(binom_sum(x, p, k1) - 1, t, p as int);
    }
}

/// The freshman's dream modulo a prime: `(x + 1)^p == x^p + 1 (mod p)`.
proof fn lemma_freshman(x: int, p: nat)
    requires
        is_prime(p as int),
    ensures
        pow(x + 1, p) % (p as int) == (pow(x, p) + 1) % (p as int),
{
    lemma_binomial_theorem(x, p);
    lemma_binom_sum_middle(x, p, p);
    assert(binom(p, p) == 1) by {
        lemma_binom_absorb_top(p);
    }
    let p1 = (p + 1) as nat;
    assert((p1 - 1) as nat == p);
    assert(binom_sum(x, p, p1) == binom_sum(x, p, p) + binom(p, p) * pow(x, p));
    assert(binom_sum(x, p, p + 1) == binom_sum(x, p, p) + pow(x, p));
    lemma_fundamental_div_mod(binom_sum(x, p, p) - 1, p as int);
    let m = (binom_sum(x, p, p) - 1) / (p as int);
    lemma_mod_multiples_vanish(m, pow(x, p) + 1, p as int);
    assert(binom_sum(x, p, p + 1) == p * m + (pow(x, p) + 1));
}

proof fn lemma_binom_absorb_top(n: nat)
    ensures
        binom(n, n) == 1,
    decreases n,
{
    if n > 0 {
        lemma_binom_absorb_top((n - 1) as nat);
        lemma_binom_past_n((n - 1) as nat, n);
    }
}

/// Fermat's little theorem, first form: `a^p == a (mod p)` for a prime `p`.
pub proof fn lemma_fermat_pow_p(a: nat, p: nat)
    requires
        is_prime(p as int),
    ensures
        pow(a as int, p) % (p as int) == (a as int) % (p as int),
    decreases a,
{
    if a == 0 {
        lemma0_pow(p);
    } else {
        let a1 = (a - 1) as nat;
        lemma_fermat_pow_p(a1, p);
        lemma_freshman(a1 as int, p);
        lemma_add_mod_noop(pow(a1 as int, p), 1, p as int);
        lemma_add_mod_noop(a1 as int, 1, p as int);
    }
}

/// Fermat's little theorem: `a^(p - 1) == 1 (mod p)` for a prime `p` that does not divide `a`.
pub proof fn lemma_fermat(a: nat, p: nat)
    requires
        is_prime(p as int),
        (a as int) % (p as int) != 0,
    ensures
        pow(a as int, (p - 1) as nat) % (p as int) == 1,
{
    lemma_fermat_pow_p(a, p);
    let e = pow(a as int, (p - 1) as nat);
    reveal(pow);
    assert(pow(a as int, p) == a * e);
    // p divides a (e - 1)
    lemma_mul_is_distributive_sub(a as int, e, 1);
    assert(a * (e - 1) == a * e - a);
    lemma_sub_mod_noop(a * e, a as int, p as int);
    lemma_small_mod(0, p);
    assert((a * (e - 1)) % (p as int) == 0) by {
        lemma_mod_self_0(p as int);
    }
    if (e - 1) % (p as int) != 0 {
        lemma_prime_product(p as int, a as int, e - 1);
    }
    lemma_fundamental_div_mod(e - 1, p as int);
    lemma_mod_multiples_vanish((e - 1) / (p as int), 1, p as int);
    lemma_small_mod(1, p);
}

/// `a^e mod m`, by repeated squaring from the most significant bit of `e`.
#[verifier::opaque]
pub open spec fn pow_mod(a: nat, e: nat, m: nat) -> nat
    decreases e,
{
    if e == 0 {
        1nat % m
    } else {
        let h = pow_mod(a, e / 2, m);
        if e % 2 == 0 {
            (h * h) % m
        } else {
            (a * ((h * h) % m)) % m
        }
    }
}

/// Repeated squaring computes the power modulo `m`.
pub proof fn lemma_pow_mod(a: nat, e: nat, m: nat)
    requires
        m > 0,
    ensures
        pow_mod(a, e, m) == pow(a as int, e) % (m as int),
    decreases e,
{
    reveal(pow_mod);
    if e == 0 {
        lemma_pow0(a as int);
    } else {
        let h = (e / 2) as nat;
        lemma_pow_mod(a, h, m);
        lemma_pow_adds(a as int, h, h);
        lemma_mul_mod_noop(pow(a as int, h), pow(a as int, h), m as int);
        let sq = pow(a as int, h) * pow(a as int, h);
        if e % 2 == 0 {
            assert(h + h == e);
        } else {
            assert(h + h + 1 == e);
            lemma_pow_adds(a as int, h + h, 1);
            lemma_pow1(a as int);
            lemma_mul_mod_noop_right(a as int, sq, m as int);
            assert(pow(a as int, e) == sq * a);
            assert(sq * a == a * sq) by (nonlinear_arith);
        }
    }
}

/// No integer in `[lo, hi)` divides `n`.
pub open spec fn no_divisor_in(n: nat, lo: nat, hi: nat) -> bool
    decreases hi - lo,
{
    if lo >= hi {
        true
    } else {
        n % lo != 0 && no_divisor_in(n, lo + 1, hi)
    }
}

proof fn lemma_no_divisor_in(n: nat, lo: nat, hi: nat, d: nat)
    requires
        no_divisor_in(n, lo, hi),
        lo <= d < hi,
    ensures
        n % d != 0,
    decreases hi - lo,
{
    if d > lo {
        lemma_no_divisor_in(n, lo + 1, hi, d);
    }
}

/// The empty power is `1`.
pub proof fn lemma_pow_mod_zero(a: nat, m: nat)
    requires
        m > 1,
    ensures
        pow_mod(a, 0, m) == 1,
{
    reveal(pow_mod);
    lemma_small_mod(1, m);
}

/// One squaring step of [`pow_mod`] for an even exponent: if `a^(e / 2) == h (mod m)` and
/// `h^2 == q m + r` with `r < m`, then `a^e == r (mod m)`.
pub proof fn lemma_pow_mod_square(a: nat, e: nat, m: nat, h: nat, q: nat, r: nat)
    requires
        e > 0,
        e % 2 == 0,
        pow_mod(a, e / 2, m) == h,
        h * h == q * m + r,
        r < m,
    ensures
        pow_mod(a, e, m) == r,
{
    reveal(pow_mod);
    lemma_fundamental_div_mod_converse((h * h) as int, m as int, q as int, r as int);
}

/// One squaring step of [`pow_mod`] for an odd exponent: if `a^(e / 2) == h (mod m)`,
/// `h^2 == q1 m + r1` and `a r1 == q m + r` with `r1, r < m`, then `a^e == r (mod m)`.
pub proof fn lemma_pow_mod_square_mul(a: nat, e: nat, m: nat, h: nat, q1: nat, r1: nat, q: nat, r: nat)
    requires
        e % 2 == 1,
        pow_mod(a, e / 2, m) == h,
        h * h == q1 * m + r1,
        r1 < m,
        a * r1 == q * m + r,
        r < m,
    ensures
        pow_mod(a, e, m) == r,
{
    reveal(pow_mod);
    lemma_fundamental_div_mod_converse((h * h) as int, m as int, q1 as int, r1 as int);
    lemma_fundamental_div_mod_converse((a * r1) as int, m as int, q as int, r as int);
}

/// Powers of a power: if `b == a^x (mod m)` then `b^y == a^(x y) (mod m)`.
pub proof fn lemma_pow_mod_compose(a: nat, x: nat, y: nat, xy: nat, m: nat, b: nat)
    requires
        m > 0,
        xy == x * y,
        b == pow(a as int, x) % (m as int),
    ensures
        pow_mod(b, y, m) == pow(a as int, xy) % (m as int),
{
    lemma_pow_mod(b, y, m);
    lemma_pow_mod_noop(pow(a as int, x), y, m as int);
    lemma_pow_multiplies(a as int, x, y);
}

/// The least divisor of `n` that is at least `d`.
spec fn least_divisor_from(n: nat, d: nat) -> nat
    decreases n - d,
{
    if d >= n {
        n
    } else if n % d == 0 {
        d
    } else {
        least_divisor_from(n, d + 1)
    }
}

proof fn lemma_least_divisor_from(n: nat, d: nat)
    requires
        2 <= d <= n,
    ensures
        d <= least_divisor_from(n, d) <= n,
        n % least_divisor_from(n, d) == 0,
        forall|x: nat| d <= x < least_divisor_from(n, d) ==> #[trigger] (n % x) != 0,
    decreases n - d,
{
    if d >= n {
        lemma_mod_self_0(n as int);
    } else if n % d != 0 {
        lemma_least_divisor_from(n, d + 1);
    }
}

/// A number above `1` that is not prime has a prime divisor `r` with `r * r <= n`.
proof fn lemma_prime_divisor(n: nat) -> (r: nat)
    requires
        n > 1,
        !is_prime(n as int),
    ensures
        is_prime(r as int),
        n % r == 0,
        r * r <= n,
{
    let r = least_divisor_from(n, 2);
    lemma_least_divisor_from(n, 2);
    let d = choose|d: int| 1 < d < n && #[trigger] divides(d, n as int);
    assert(r <= d) by {
        if r > d {
            assert(n % (d as nat) != 0);
        }
    }
    assert forall|x: int| 1 < x < r implies !#[trigger] divides(x, r as int) by {
        if divides(x, r as int) {
            lemma_fundamental_div_mod(n as int, r as int);
            lemma_fundamental_div_mod(r as int, x);
            let k = n / r;
            let j = (r as int) / x;
            assert(n == x * (j * k)) by (nonlinear_arith)
                requires
                    n == r * k + 0,
                    r == x * j + 0,
            ;
            lemma_mod_multiples_basic(j * k, x);
            assert((x * (j * k)) % x == 0) by (nonlinear_arith)
                requires
                    ((j * k) * x) % x == 0,
            ;
            assert(n % (x as nat) != 0);
        }
    }
    lemma_fundamental_div_mod(n as int, r as int);
    let m = n / r;
    assert(n == r * m) by {
        lemma_fundamental_div_mod(n as int, r as int);
    }
    assert(m >= r) by {
        assert(m > 1) by (nonlinear_arith)
            requires
                n == r * m,
                r < n,
                r >= 2,
                m >= 0,
        ;
        lemma_mod_multiples_basic(r as int, m as int);
        assert((n as int) % (m as int) == 0) by (nonlinear_arith)
            requires
                ((r as int) * (m as int)) % (m as int) == 0,
                n == r * m,
        ;
        if m < r {
            assert(n % m != 0);
        }
    }
    assert(r * r <= n) by (nonlinear_arith)
        requires
            m >= r,
            n == r * m,
            r >= 0,
    ;
    r
}

/// Trial division up to the square root proves primality.
pub proof fn lemma_trial_division(n: nat, s: nat)
    requires
        n > 1,
        (s + 1) * (s + 1) > n,
        no_divisor_in(n, 2, s + 1),
    ensures
        is_prime(n as int),
{
    if !is_prime(n as int) {
        let r = lemma_prime_divisor(n);
        assert(r < s + 1) by (nonlinear_arith)
            requires
                r * r <= n,
                (s + 1) * (s + 1) > n,
                r >= 0,
        ;
        lemma_no_divisor_in(n, 2, s + 1, r);
    }
}

/// If `a^u == 1 (mod r)` then `a^(u t) == 1 (mod r)`.
proof fn lemma_pow_one_mul(a: int, r: int, u: nat, t: nat)
    requires
        r > 1,
        pow(a, u) % r == 1,
    ensures
        pow(a, u * t) % r == 1,
{
    lemma_pow_multiplies(a, u, t);
    lemma_pow_mod_noop(pow(a, u), t, r);
    lemma1_pow(t);
    lemma_small_mod(1, r as nat);
}

/// If `a^e2 == 1 (mod r)` then `a^(e1 + e2) == a^e1 (mod r)`.
proof fn lemma_pow_add_one(a: int, r: int, e1: nat, e2: nat)
    requires
        r > 1,
        pow(a, e2) % r == 1,
    ensures
        pow(a, e1 + e2) % r == pow(a, e1) % r,
{
    lemma_pow_adds(a, e1, e2);
    lemma_mul_mod_noop_right(pow(a, e1), pow(a, e2), r);
}

/// If `a^u` and `a^v` are `1` modulo `r`, so is `a^w` for every `w = u x + v y`.
proof fn lemma_pow_one_combination(a: int, r: int, u: nat, v: nat, x: int, y: int, w: nat)
    requires
        r > 1,
        pow(a, u) % r == 1,
        pow(a, v) % r == 1,
        u * x + v * y == w,
    ensures
        pow(a, w) % r == 1,
{
    if x >= 0 && y >= 0 {
        let ux = (u * x) as nat;
        let vy = (v * y) as nat;
        assert(u * x >= 0 && v * y >= 0) by (nonlinear_arith)
            requires
                x >= 0,
                y >= 0,
        ;
        lemma_pow_one_mul(a, r, u, x as nat);
        lemma_pow_one_mul(a, r, v, y as nat);
        lemma_pow_add_one(a, r, ux, vy);
        assert(ux + vy == w);
    } else if x >= 0 {
        let ux = (u * x) as nat;
        let vy = (v * (-y)) as nat;
        assert(u * x >= 0 && v * (-y) >= 0 && v * (-y) == -(v * y)) by (nonlinear_arith)
            requires
                x >= 0,
                y < 0,
        ;
        lemma_pow_one_mul(a, r, u, x as nat);
        lemma_pow_one_mul(a, r, v, (-y) as nat);
        lemma_pow_add_one(a, r, w, vy);
        assert(w + vy == ux);
    } else if y >= 0 {
        let ux = (u * (-x)) as nat;
        let vy = (v * y) as nat;
        assert(u * (-x) >= 0 && v * y >= 0 && u * (-x) == -(u * x)) by (nonlinear_arith)
            requires
                x < 0,
                y >= 0,
        ;
        lemma_pow_one_mul(a, r, u, (-x) as nat);
        lemma_pow_one_mul(a, r, v, y as nat);
        lemma_pow_add_one(a, r, w, ux);
        assert(w + ux == vy);
    } else {
        assert(u * x <= 0 && v * y <= 0) by (nonlinear_arith)
            requires
                x < 0,
                y < 0,
        ;
        assert(w == 0);
        reveal(pow);
        lemma_small_mod(1, r as nat);
    }
}

/// One prime `p` of Pocklington's criterion: if `a^((n - 1) / p) - 1` is coprime to `n`, every
/// prime divisor `r` of `n` is `1` modulo `p`.
proof fn lemma_pocklington_prime(n: nat, r: nat, p: nat, a: nat, u: int, v: int)
    requires
        n > 1,
        is_prime(r as int),
        n % r == 0,
        is_prime(p as int),
        (n - 1) % (p as int) == 0,
        pow(a as int, (n - 1) as nat) % (r as int) == 1,
        pow(a as int, (r - 1) as nat) % (r as int) == 1,
        (pow(a as int, ((n - 1) / (p as int)) as nat) % (n as int) - 1) * u + n * v == 1,
    ensures
        (r - 1) % (p as int) == 0,
{
    if (r - 1) % (p as int) != 0 {
        let (g, x, y) = lemma_int_bezout(p as int, r - 1);
        assert(g == 1) by {
            if g != 1 {
                lemma_mod_is_zero(p, g as nat);
                assert(g <= p);
                if g < p {
                    assert(divides(g, p as int));
                }
            }
        }
        let s = (n - 1) / (p as int);
        lemma_fundamental_div_mod((n - 1) as int, p as int);
        assert(n - 1 == p * s);
        assert(s >= 0) by {
            lemma_div_pos_is_pos((n - 1) as int, p as int);
        }
        let sy = s * y;
        assert((n - 1) * x + (r - 1) * sy == s) by (nonlinear_arith)
            requires
                n - 1 == p * s,
                p * x + (r - 1) * y == 1,
                sy == s * y,
        ;
        lemma_pow_one_combination(a as int, r as int, (n - 1) as nat, (r - 1) as nat, x, sy, s as nat);
        let e = pow(a as int, s as nat);
        let b = e % (n as int);
        // r divides n, so b == e (mod r)
        lemma_fundamental_div_mod(n as int, r as int);
        let m = (n as int) / (r as int);
        assert(m > 0) by (nonlinear_arith)
            requires
                n == r * m + 0,
                n > 1,
                r > 1,
        ;
        lemma_mod_mod(e, r as int, m);
        assert(b % (r as int) == 1);
        lemma_fundamental_div_mod(b, r as int);
        let k = b / (r as int);
        assert((r as int) * (k * u + m * v) == 1) by (nonlinear_arith)
            requires
                b == r * k + 1,
                n == r * m,
                (b - 1) * u + n * v == 1,
        ;
        assert(false) by (nonlinear_arith)
            requires
                (r as int) * (k * u + m * v) == 1,
                r > 1,
        ;
    }
}

/// Pocklington's criterion with two distinct primes `p1`, `p2` dividing `n - 1`, with product
/// `f`: if `f^2 > n`, `a^(n - 1) == 1 (mod n)` and each `a^((n - 1) / p) - 1` is coprime to `n`
/// (witnessed by the Bezout coefficients `u`, `v`), then `n` is prime.
pub proof fn lemma_pocklington(n: nat, p1: nat, p2: nat, f: nat, a: nat, u1: int, v1: int, u2: int, v2: int)
    requires
        n > 1,
        is_prime(p1 as int),
        is_prime(p2 as int),
        p1 != p2,
        (n - 1) % (p1 as int) == 0,
        (n - 1) % (p2 as int) == 0,
        f == p1 * p2,
        f * f > n,
        pow(a as int, (n - 1) as nat) % (n as int) == 1,
        (pow(a as int, ((n - 1) / (p1 as int)) as nat) % (n as int) - 1) * u1 + n * v1 == 1,
        (pow(a as int, ((n - 1) / (p2 as int)) as nat) % (n as int) - 1) * u2 + n * v2 == 1,
    ensures
        is_prime(n as int),
{
    if !is_prime(n as int) {
        let r = lemma_prime_divisor(n);
        lemma_fundamental_div_mod(n as int, r as int);
        let m = (n as int) / (r as int);
        assert(m > 0) by (nonlinear_arith)
            requires
                n == r * m + 0,
                n > 1,
                r > 1,
        ;
        let e = pow(a as int, (n - 1) as nat);
        lemma_mod_mod(e, r as int, m);
        lemma_small_mod(1, r);
        assert(e % (r as int) == 1);
        assert((a as int) % (r as int) != 0) by {
            if (a as int) % (r as int) == 0 {
                lemma_pow_mod_noop(a as int, (n - 1) as nat, r as int);
                lemma0_pow((n - 1) as nat);
                lemma_small_mod(0, r);
            }
        }
        lemma_fermat(a, r);
        lemma_pocklington_prime(n, r, p1, a, u1, v1);
        lemma_pocklington_prime(n, r, p2, a, u2, v2);
        // r - 1 is a multiple of p1 p2
        lemma_fundamental_div_mod(r - 1, p1 as int);
        let k = (r - 1) / (p1 as int);
        assert((p1 as int) % (p2 as int) != 0) by {
            if p1 < p2 {
                lemma_small_mod(p1, p2);
            } else {
                assert(!divides(p2 as int, p1 as int));
            }
        }
        if k % (p2 as int) != 0 {
            lemma_prime_product(p2 as int, p1 as int, k);
        }
        lemma_fundamental_div_mod(k, p2 as int);
        let j = k / (p2 as int);
        assert(r * r > n) by (nonlinear_arith)
            requires
                r - 1 == p1 * k + 0,
                k == p2 * j + 0,
                r >= 2,
                p1 >= 2,
                p2 >= 2,
                f == p1 * p2,
                f * f > n,
        ;
    }
}

/// Pocklington's criterion with one prime `p` dividing `n - 1`: if `p^2 > n`,
/// `a^(n - 1) == 1 (mod n)` and `a^((n - 1) / p) - 1` is coprime to `n` (witnessed by the Bezout
/// coefficients `u`, `v`), then `n` is prime.
pub proof fn lemma_pocklington_single(n: nat, p: nat, a: nat, u: int, v: int)
    requires
        n > 1,
        is_prime(p as int),
        (n - 1) % (p as int) == 0,
        p * p > n,
        pow(a as int, (n - 1) as nat) % (n as int) == 1,
        (pow(a as int, ((n - 1) / (p as int)) as nat) % (n as int) - 1) * u + n * v == 1,
    ensures
        is_prime(n as int),
{
    if !is_prime(n as int) {
        let r = lemma_prime_divisor(n);
        lemma_fundamental_div_mod(n as int, r as int);
        let m = (n as int) / (r as int);
        assert(m > 0) by (nonlinear_arith)
            requires
                n == r * m + 0,
                n > 1,
                r > 1,
        ;
        let e = pow(a as int, (n - 1) as nat);
        lemma_mod_mod(e, r as int, m);
        lemma_small_mod(1, r);
        assert((a as int) % (r as int) != 0) by {
            if (a as int) % (r as int) == 0 {
                lemma_pow_mod_noop(a as int, (n - 1) as nat, r as int);
                lemma0_pow((n - 1) as nat);
                lemma_small_mod(0, r);
            }
        }
        lemma_fermat(a, r);
        lemma_pocklington_prime(n, r, p, a, u, v);
        lemma_fundamental_div_mod(r - 1, p as int);
        let k = (r - 1) / (p as int);
        assert(r * r > n) by (nonlinear_arith)
            requires
                r - 1 == p * k + 0,
                r >= 2,
                p >= 2,
                p * p > n,
        ;
    }
}

} // verus!
