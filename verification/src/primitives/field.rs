//! Arithmetic on polynomial coefficients: integers modulo a prime `q` below `2^80`,
//! each stored as a `u128` in `[0, q)`.
use vstd::arithmetic::div_mod::*;
use vstd::arithmetic::mul::*;
use vstd::prelude::*;

pub mod certificates;
pub mod primality;

verus! {

/// The largest coefficient modulus supported by the arithmetic here: `2^80`.
pub const MODULUS_LIMIT: u128 = 0x1_0000_0000_0000_0000_0000u128;

/// `2^40`, the limb size used to keep products inside `u128`.
pub const LIMB: u128 = 0x100_0000_0000u128;

/// A modulus that the coefficient arithmetic supports.
pub open spec fn modulus_ok(q: int) -> bool {
    2 < q < MODULUS_LIMIT
}

/// `a + b (mod q)`.
pub fn add_mod(a: u128, b: u128, q: u128) -> (r: u128)
    requires
        modulus_ok(q as int),
        a < q,
        b < q,
    ensures
        r == (a + b) % (q as int),
        r < q,
{
    let s = a + b;
    if s >= q {
        proof {
            lemma_fundamental_div_mod_converse(s as int, q as int, 1, s - q);
        }
        s - q
    } else {
        proof {
            lemma_small_mod(s as nat, q as nat);
        }
        s
    }
}

/// `a - b (mod q)`.
pub fn sub_mod(a: u128, b: u128, q: u128) -> (r: u128)
    requires
        modulus_ok(q as int),
        a < q,
        b < q,
    ensures
        r == (a - b) % (q as int),
        r < q,
{
    if a >= b {
        proof {
            lemma_small_mod((a - b) as nat, q as nat);
        }
        a - b
    } else {
        proof {
            lemma_fundamental_div_mod_converse(a - b, q as int, -1, q + a - b);
        }
        q - b + a
    }
}

/// `-a (mod q)`.
pub fn neg_mod(a: u128, q: u128) -> (r: u128)
    requires
        modulus_ok(q as int),
        a < q,
    ensures
        r == (-a) % (q as int),
        r < q,
{
    sub_mod(0, a, q)
}

/// `a * b (mod q)`, computed with `2^40` limbs so that no product leaves `u128`.
pub fn mul_mod(a: u128, b: u128, q: u128) -> (r: u128)
    requires
        modulus_ok(q as int),
        a < q,
        b < q,
    ensures
        r == (a * b) % (q as int),
        r < q,
{
    let b1 = b / LIMB;
    let b0 = b % LIMB;
    proof {
        lemma_fundamental_div_mod(b as int, LIMB as int);
        assert(b1 < LIMB) by (nonlinear_arith)
            requires b1 == b / LIMB, b < MODULUS_LIMIT, MODULUS_LIMIT == LIMB * LIMB;
        assert(a * b1 < MODULUS_LIMIT * LIMB) by (nonlinear_arith)
            requires a < MODULUS_LIMIT, b1 < LIMB;
        assert(a * b0 < MODULUS_LIMIT * LIMB) by (nonlinear_arith)
            requires a < MODULUS_LIMIT, b0 < LIMB;
    }
    let x = (a * b1) % q;
    proof {
        assert(x * LIMB < MODULUS_LIMIT * LIMB) by (nonlinear_arith)
            requires x < MODULUS_LIMIT;
    }
    let y = (x * LIMB) % q;
    let z = (y + a * b0) % q;
    proof {
        let qi = q as int;
        // a * b == (a * b1) * LIMB + a * b0
        assert(a * b == (a * b1) * LIMB + a * b0) by (nonlinear_arith)
            requires b == LIMB * b1 + b0;
        lemma_mul_mod_noop_left(a * b1, LIMB as int, qi);
        lemma_add_mod_noop((a * b1) * LIMB, a * b0, qi);
        lemma_add_mod_noop(y as int, a * b0, qi);
        lemma_mod_twice((x * LIMB) as int, qi);
    }
    z
}


/// `d` divides `n`.
pub open spec fn divides(d: int, n: int) -> bool {
    n % d == 0
}

/// Divisibility is kept by adding multiples: if `d` divides `x` and `y`, it divides `x + k y`.
proof fn lemma_divides_combination(d: int, x: int, y: int, k: int)
    requires
        d > 0,
        divides(d, x),
        divides(d, y),
    ensures
        divides(d, x + k * y),
{
    lemma_fundamental_div_mod(x, d);
    lemma_fundamental_div_mod(y, d);
    let u = x / d;
    let v = y / d;
    assert(x + k * y == d * (u + k * v)) by (nonlinear_arith)
        requires x == d * u, y == d * v;
    lemma_mod_multiples_basic(u + k * v, d);
    lemma_mul_is_commutative(d, u + k * v);
}

/// The inverse of `a` modulo `q`, by the extended Euclidean algorithm, or `None` when `a` and `q`
/// share a factor, so that no inverse exists. For a prime `q`, every non-zero `a` has one.
pub fn inv_mod(a: u128, q: u128) -> (r: Option<u128>)
    requires
        modulus_ok(q as int),
        a < q,
    ensures
        match r {
            Some(x) => x < q && (a * x) % (q as int) == 1,
            None => forall|x: int| #[trigger] ((a * x) % (q as int)) != 1,
        },
{
    let mut r0: u128 = q;
    let mut r1: u128 = a;
    let mut s0: u128 = 0;
    let mut s1: u128 = 1;
    proof {
        lemma_small_mod(0, q as nat);
        lemma_small_mod(a as nat, q as nat);
        assert((a * s1 - r1) % (q as int) == 0);
        assert((a * s0 - r0) % (q as int) == 0) by {
            lemma_mod_self_0(q as int);
            assert(a * s0 - r0 == -(q as int));
            lemma_mod_multiples_basic(-1, q as int);
        }
    }
    while r1 != 0
        invariant
            modulus_ok(q as int),
            a < q,
            0 < r0 <= q,
            r1 < q,
            r1 < r0,
            s0 < q,
            s1 < q,
            (a * s0 - r0) % (q as int) == 0,
            (a * s1 - r1) % (q as int) == 0,
            forall|d: int|
                d > 0 && divides(d, r0 as int) && divides(d, r1 as int) ==> #[trigger] divides(d, q as int) && divides(d, a as int),
        decreases r1,
    {
        let k = r0 / r1;
        let r2 = r0 % r1;
        let ks = mul_mod(k % q, s1, q);
        let s2 = sub_mod(s0, ks, q);
        proof {
            let qi = q as int;
            lemma_fundamental_div_mod(r0 as int, r1 as int);
            lemma_mod_bound(r0 as int, r1 as int);
            assert(r2 == r0 - k * r1);
            // a s2 - r2 = (a s0 - r0) - k (a s1 - r1), modulo q
            assert(ks == (k * s1) % qi) by {
                lemma_mul_mod_noop_left(k as int, s1 as int, qi);
            }
            assert(s2 == (s0 - (k * s1) % qi) % qi);
            lemma_sub_mod_noop(s0 as int, k * s1, qi);
            lemma_mod_twice(s0 as int, qi);
            lemma_small_mod(s0 as nat, q as nat);
            assert(s2 == (s0 - k * s1) % qi);
            let e0 = a * s0 - r0;
            let e1 = a * s1 - r1;
            assert(a * (s0 - k * s1) - r2 == e0 - k * e1) by (nonlinear_arith)
                requires r2 == r0 - k * r1, e0 == a * s0 - r0, e1 == a * s1 - r1;
            lemma_divides_combination(qi, e0, e1, -(k as int));
            assert(e0 + (-(k as int)) * e1 == e0 - k * e1) by (nonlinear_arith);
            assert(divides(qi, a * (s0 - k * s1) - r2));
            // a s2 = a (s0 - k s1) - q m for some m
            lemma_fundamental_div_mod(s0 - k * s1, qi);
            let m = (s0 - k * s1) / qi;
            assert(a * s2 - r2 == (a * (s0 - k * s1) - r2) + (qi) * (-(a * m))) by (nonlinear_arith)
                requires s0 - k * s1 == qi * m + s2;
            lemma_mod_self_0(qi);
            lemma_divides_combination(qi, a * (s0 - k * s1) - r2, qi, -(a * m));
            assert forall|d: int| d > 0 && divides(d, r1 as int) && divides(d, r2 as int) implies #[trigger] divides(d, q as int)
                && divides(d, a as int) by {
                lemma_divides_combination(d, r2 as int, r1 as int, k as int);
                assert(r2 + k * r1 == r0);
            }
        }
        r0 = r1;
        r1 = r2;
        s0 = s1;
        s1 = s2;
    }
    if r0 == 1 {
        proof {
            assert((a * s0 - 1) % (q as int) == 0);
            lemma_fundamental_div_mod(a * s0 - 1, q as int);
            let m = (a * s0 - 1) / (q as int);
            lemma_fundamental_div_mod_converse(a * s0, q as int, m, 1);
        }
        Some(s0)
    } else {
        proof {
            let g = r0 as int;
            lemma_mod_self_0(g);
            lemma_small_mod(0, r0 as nat);
            assert(divides(g, g));
            assert(divides(g, 0));
            assert(divides(g, q as int) && divides(g, a as int));
            assert forall|x: int| #[trigger] ((a * x) % (q as int)) != 1 by {
                if (a * x) % (q as int) == 1 {
                    lemma_fundamental_div_mod(a * x, q as int);
                    let m = (a * x) / (q as int);
                    lemma_divides_combination(g, a as int, a as int, x - 1);
                    assert(a + (x - 1) * a == a * x) by (nonlinear_arith);
                    lemma_divides_combination(g, a * x, q as int, -m);
                    assert(a * x + (-m) * q == 1) by (nonlinear_arith)
                        requires a * x == (q as int) * m + 1;
                    assert(divides(g, 1));
                    lemma_small_mod(1, r0 as nat);
                }
            }
        }
        None
    }
}

/// `q` is prime: no integer strictly between `1` and `q` divides it.
pub open spec fn is_prime(q: int) -> bool {
    &&& q > 1
    &&& forall|d: int| 1 < d < q ==> !#[trigger] divides(d, q)
}

/// Bezout's identity over the integers: a positive common divisor `g` of `a` and `b` with
/// `a x + b y = g`, returned as `(g, x, y)`.
proof fn lemma_int_bezout(a: int, b: int) -> (r: (int, int, int))
    requires
        a >= 0,
        b >= 0,
        a + b > 0,
    ensures
        r.0 > 0,
        divides(r.0, a),
        divides(r.0, b),
        a * r.1 + b * r.2 == r.0,
    decreases b,
{
    if b == 0 {
        lemma_mod_self_0(a);
        lemma_small_mod(0, a as nat);
        (a, 1, 0)
    } else {
        let rr = a % b;
        lemma_fundamental_div_mod(a, b);
        lemma_mod_bound(a, b);
        let (g, x, y) = lemma_int_bezout(b, rr);
        let k = a / b;
        assert(a == rr + k * b) by (nonlinear_arith)
            requires a == b * k + rr;
        lemma_divides_combination(g, rr, b, k);
        assert(a * y + b * (x - k * y) == g) by (nonlinear_arith)
            requires
                b * x + rr * y == g,
                a == rr + k * b,
        ;
        (g, y, x - k * y)
    }
}

/// Modulo a prime, every integer that is not a multiple of `q` has an inverse.
pub proof fn lemma_prime_inverse(q: int, c: int) -> (x: int)
    requires
        is_prime(q),
        c % q != 0,
    ensures
        (c * x) % q == 1,
{
    let c0 = c % q;
    lemma_mod_bound(c, q);
    let (g, x, y) = lemma_int_bezout(q, c0);
    // g divides c0, so it is at most c0 < q; being a divisor of the prime q, it is 1
    if g > c0 {
        lemma_small_mod(c0 as nat, g as nat);
    }
    assert(g == 1) by {
        if g > 1 {
            assert(!divides(g, q));
        }
    }
    // c y = c0 y + q k y, and c0 y = 1 - q x
    lemma_fundamental_div_mod(c, q);
    let k = c / q;
    assert(c * y == 1 + q * (k * y - x)) by (nonlinear_arith)
        requires
            c == q * k + c0,
            q * x + c0 * y == 1,
    ;
    lemma_mod_multiples_vanish(k * y - x, 1, q);
    lemma_small_mod(1, q as nat);
    y
}

/// Modulo a prime, a product of two integers that are not multiples of `q` is not one either.
pub proof fn lemma_prime_product(q: int, x: int, y: int)
    requires
        is_prime(q),
        x % q != 0,
        y % q != 0,
    ensures
        (x * y) % q != 0,
{
    let xi = lemma_prime_inverse(q, x);
    if (x * y) % q == 0 {
        // y = (xi x) y = xi (x y), modulo q
        lemma_mul_mod_noop_right(xi, x * y, q);
        lemma_small_mod(0, q as nat);
        assert(xi * 0 == 0);
        assert(xi * (x * y) == (x * xi) * y) by (nonlinear_arith);
        lemma_mul_mod_noop_left(x * xi, y, q);
        assert(1 * y == y);
    }
}

} // verus!
