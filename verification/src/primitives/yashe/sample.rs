//! Uniform sampling of polynomials and messages, with the thread-local random number generator.
use core::marker::PhantomData;
use rand::rngs::ThreadRng;
use rand::Rng;
use vstd::prelude::*;

use crate::primitives::poly::algebra::{get, ints};
use crate::primitives::poly::Poly;
use crate::primitives::yashe::conf::{yashe_params_valid, LiftConf, YasheConf};
use crate::primitives::yashe::{Message, Yashe};

verus! {

/// `x` reduced modulo `q`.
pub open spec fn reduced(x: int, q: int) -> int {
    x % q
}

/// `c` is the reduction modulo `q` of some value in `[lo, hi]`.
pub open spec fn reduced_from_range(c: int, lo: u64, hi: u64, q: int) -> bool {
    exists|x: int| lo <= x <= hi && #[trigger] reduced(x, q) == c
}

/// The thread-local random number generator of `rand`.
#[verifier::external_type_specification]
#[verifier::external_body]
pub struct ExThreadRng(ThreadRng);

/// A uniformly random integer in `[0, bound)`, from `rand`'s `Rng::gen_range` on a half-open
/// range. The value depends on the generator's state: the contract says only that it is in range.
#[verifier::external_body]
fn gen_below(rng: &mut ThreadRng, bound: u128) -> (r: u128)
    requires
        bound > 0,
    ensures
        r < bound,
{
    rng.gen_range(0..bound)
}

/// A uniformly random integer in `[lo, hi]`, from `rand`'s `Rng::gen_range` on an inclusive
/// range. The value depends on the generator's state: the contract says only that it is in range.
#[verifier::external_body]
fn gen_inclusive(rng: &mut ThreadRng, lo: u64, hi: u64) -> (r: u64)
    requires
        lo <= hi,
    ensures
        lo <= r <= hi,
{
    rng.gen_range(lo..=hi)
}

/// Draws `n` values below `bound` from the generator, one per position.
fn draw_below(rng: &mut ThreadRng, bound: u128, n: usize) -> (v: Vec<u128>)
    requires
        bound > 0,
    ensures
        v@.len() == n,
        forall|j: int| 0 <= j < n ==> #[trigger] v@[j] < bound,
{
    let mut v: Vec<u128> = Vec::new();
    let mut i: usize = 0;
    while i < n
        invariant
            i <= n,
            bound > 0,
            v@.len() == i,
            forall|j: int| 0 <= j < i ==> #[trigger] v@[j] < bound,
        decreases n - i,
    {
        v.push(gen_below(rng, bound));
        i += 1;
    }
    v
}

/// Draws `n` values in `[lo, hi]` from the generator, one per position.
fn draw_inclusive(rng: &mut ThreadRng, lo: u64, hi: u64, n: usize) -> (v: Vec<u64>)
    requires
        lo <= hi,
    ensures
        v@.len() == n,
        forall|j: int| 0 <= j < n ==> lo <= #[trigger] v@[j] <= hi,
{
    let mut v: Vec<u64> = Vec::new();
    let mut i: usize = 0;
    while i < n
        invariant
            i <= n,
            lo <= hi,
            v@.len() == i,
            forall|j: int| 0 <= j < i ==> lo <= #[trigger] v@[j] <= hi,
        decreases n - i,
    {
        v.push(gen_inclusive(rng, lo, hi));
        i += 1;
    }
    v
}

impl<C: YasheConf> Yashe<C> {
    /// The polynomial whose coefficient of `X^i` is the `i`-th draw, for draws below `q`.
    pub fn uniform_coeff_from_draws(&self, draws: Vec<u128>) -> (r: Poly<C>)
        requires
            draws@.len() == C::spec_max_poly_degree(),
            forall|j: int| 0 <= j < draws@.len() ==> (#[trigger] draws@[j] as int) < C::spec_modulus(),
        ensures
            r.is_canonical(),
            forall|i: int| 0 <= i < C::spec_max_poly_degree() ==> #[trigger] r.coeff(i) == draws@[i],
    {
        let ghost d = draws@;
        let r = Poly::from_coefficients_vec(draws);
        proof {
            assert forall|i: int| 0 <= i < C::spec_max_poly_degree() implies #[trigger] r.coeff(i) == d[i] by {
                assert(get(ints(d), i) == d[i]);
            }
        }
        r
    }

    /// The polynomial whose coefficient of `X^i` is the `i`-th draw reduced modulo `q`.
    pub fn uniform_range_from_draws(&self, draws: Vec<u64>) -> (r: Poly<C>)
        requires
            draws@.len() == C::spec_max_poly_degree(),
        ensures
            r.is_canonical(),
            forall|i: int|
                0 <= i < C::spec_max_poly_degree() ==> #[trigger] r.coeff(i) == reduced(draws@[i] as int, C::spec_modulus()),
    {
        proof {
            C::lemma_conf_valid();
        }
        let n = draws.len();
        let q = C::modulus();
        let mut coeffs: Vec<u128> = Vec::new();
        let mut i: usize = 0;
        while i < n
            invariant
                i <= n,
                n == draws@.len(),
                q == C::spec_modulus(),
                q > 2,
                coeffs@.len() == i,
                forall|j: int| 0 <= j < i ==> (#[trigger] coeffs@[j] as int) == reduced(draws@[j] as int, q as int),
            decreases n - i,
        {
            let c = (draws[i] as u128) % q;
            coeffs.push(c);
            i += 1;
        }
        let ghost d = coeffs@;
        let r = Poly::from_coefficients_vec(coeffs);
        proof {
            assert forall|i: int| 0 <= i < C::spec_max_poly_degree() implies #[trigger] r.coeff(i) == reduced(
                draws@[i] as int,
                C::spec_modulus(),
            ) by {
                assert(get(ints(d), i) == d[i]);
            }
        }
        r
    }

    /// The binary message whose coefficient of `X^i` is the `i`-th draw, for draws in `{0, 1}`.
    pub fn binary_message_from_draws(&self, draws: Vec<u64>) -> (r: Message<C>)
        requires
            draws@.len() == C::spec_max_poly_degree(),
            forall|j: int| 0 <= j < draws@.len() ==> #[trigger] draws@[j] <= 1,
        ensures
            r.m.is_canonical(),
            forall|i: int| 0 <= i < C::spec_max_poly_degree() ==> #[trigger] r.m.coeff(i) == draws@[i],
    {
        proof {
            C::lemma_conf_valid();
        }
        let m = self.uniform_range_from_draws(draws);
        proof {
            assert forall|i: int| 0 <= i < C::spec_max_poly_degree() implies #[trigger] m.coeff(i) == draws@[i] by {
                vstd::arithmetic::div_mod::lemma_small_mod(draws@[i] as nat, C::spec_modulus() as nat);
            }
        }
        Message { m }
    }

    /// The ternary message whose coefficient of `X^i` is the `i`-th draw from `{0, 1, 2}`, with
    /// `2` standing for `-1`, stored as `t - 1`.
    pub fn ternary_message_from_draws(&self, draws: Vec<u64>) -> (r: Message<C>)
        requires
            draws@.len() == C::spec_max_poly_degree(),
            forall|j: int| 0 <= j < draws@.len() ==> #[trigger] draws@[j] <= 2,
        ensures
            r.m.is_canonical(),
            forall|i: int|
                0 <= i < C::spec_max_poly_degree() ==> #[trigger] r.m.coeff(i) == if draws@[i] == 2 {
                    C::spec_t() - 1
                } else {
                    draws@[i] as int
                },
    {
        proof {
            C::lemma_conf_valid();
        }
        let m = self.uniform_range_from_draws(draws);
        proof {
            assert forall|i: int| 0 <= #[trigger] m.coeff(i) <= 2 by {
                if 0 <= i < C::spec_max_poly_degree() {
                    vstd::arithmetic::div_mod::lemma_small_mod(draws@[i] as nat, C::spec_modulus() as nat);
                } else {
                    assert(m.coeffs@.len() <= C::spec_max_poly_degree());
                }
            }
        }
        let r = self.ternary_from_uniform(m);
        proof {
            assert forall|i: int| 0 <= i < C::spec_max_poly_degree() implies #[trigger] r.m.coeff(i) == if draws@[i]
                == 2 {
                C::spec_t() - 1
            } else {
                draws@[i] as int
            } by {
                vstd::arithmetic::div_mod::lemma_small_mod(draws@[i] as nat, C::spec_modulus() as nat);
                assert(m.coeff(i) == draws@[i]);
            }
        }
        r
    }

    /// Samples a polynomial with uniformly random coefficients modulo `q`: the coefficient of
    /// `X^i` is the generator's `i`-th draw below `q`.
    pub fn sample_uniform_coeff(&self, rng: &mut ThreadRng) -> (r: Poly<C>)
        ensures
            r.is_canonical(),
            exists|draws: Seq<u128>|
                #![trigger draws.len()]
                draws.len() == C::spec_max_poly_degree() && (forall|j: int|
                    0 <= j < draws.len() ==> (#[trigger] draws[j] as int) < C::spec_modulus()) && (forall|i: int|
                    0 <= i < C::spec_max_poly_degree() ==> #[trigger] r.coeff(i) == draws[i]),
    {
        proof {
            C::lemma_conf_valid();
        }
        let draws = draw_below(rng, C::modulus(), C::max_poly_degree());
        let ghost d = draws@;
        let r = self.uniform_coeff_from_draws(draws);
        proof {
            assert(d.len() == C::spec_max_poly_degree());
        }
        r
    }

    /// Samples a polynomial with uniformly random coefficients in `[lo, hi]`, each reduced modulo
    /// `q`: the coefficient of `X^i` is the generator's `i`-th draw, reduced.
    pub fn sample_uniform_range(&self, lo: u64, hi: u64, rng: &mut ThreadRng) -> (r: Poly<C>)
        requires
            lo <= hi,
        ensures
            r.is_canonical(),
            forall|i: int|
                0 <= i < C::spec_max_poly_degree() ==> reduced_from_range(#[trigger] r.coeff(i), lo, hi, C::spec_modulus()),
            (hi as int) < C::spec_modulus() ==> forall|i: int| 0 <= i < C::spec_max_poly_degree() ==> lo <= #[trigger] r.coeff(i) <= hi,
            exists|draws: Seq<u64>|
                #![trigger draws.len()]
                draws.len() == C::spec_max_poly_degree() && (forall|j: int|
                    0 <= j < draws.len() ==> lo <= #[trigger] draws[j] <= hi) && (forall|i: int|
                    0 <= i < C::spec_max_poly_degree() ==> #[trigger] r.coeff(i) == reduced(draws[i] as int, C::spec_modulus())),
    {
        proof {
            C::lemma_conf_valid();
        }
        let draws = draw_inclusive(rng, lo, hi, C::max_poly_degree());
        let ghost d = draws@;
        let r = self.uniform_range_from_draws(draws);
        proof {
            assert(d.len() == C::spec_max_poly_degree());
            assert forall|i: int| 0 <= i < C::spec_max_poly_degree() implies reduced_from_range(
                #[trigger] r.coeff(i),
                lo,
                hi,
                C::spec_modulus(),
            ) by {
                assert(lo <= d[i] <= hi);
                assert(reduced(d[i] as int, C::spec_modulus()) == r.coeff(i));
            }
            if (hi as int) < C::spec_modulus() {
                assert forall|i: int| 0 <= i < C::spec_max_poly_degree() implies lo <= #[trigger] r.coeff(i) <= hi by {
                    vstd::arithmetic::div_mod::lemma_small_mod(d[i] as nat, C::spec_modulus() as nat);
                }
            }
        }
        r
    }

    /// Maps a polynomial with coefficients in `{0, 1, 2}` to a ternary message: `0` and `1` stay,
    /// `2` becomes `-1`, stored as `t - 1`.
    pub fn ternary_from_uniform(&self, m: Poly<C>) -> (r: Message<C>)
        requires
            m.is_canonical(),
            forall|i: int| 0 <= #[trigger] m.coeff(i) <= 2,
        ensures
            r.m.is_canonical(),
            forall|i: int|
                0 <= i < C::spec_max_poly_degree() ==> #[trigger] r.m.coeff(i) == if m.coeff(i) == 2 {
                    C::spec_t() - 1
                } else {
                    m.coeff(i)
                },
    {
        proof {
            C::lemma_conf_valid();
            C::lemma_yashe_conf_valid();
        }
        let t = C::t() as u128;
        let n = C::max_poly_degree();
        let mut coeffs: Vec<u128> = Vec::new();
        let mut i: usize = 0;
        while i < n
            invariant
                i <= n,
                n == C::spec_max_poly_degree(),
                t == C::spec_t(),
                2 <= t < C::spec_modulus(),
                m.is_canonical(),
                forall|j: int| 0 <= #[trigger] m.coeff(j) <= 2,
                coeffs@.len() == i,
                forall|j: int|
                    0 <= j < i ==> #[trigger] coeffs@[j] as int == if m.coeff(j) == 2 { t - 1 } else { m.coeff(j) },
            decreases n - i,
        {
            let c = if i < m.coeffs.len() {
                m.coeffs[i]
            } else {
                0
            };
            assert(c == m.coeff(i as int));
            coeffs.push(if c == 2 { t - 1 } else { c });
            i += 1;
        }
        let r = Poly::from_coefficients_vec(coeffs);
        proof {
            assert forall|i: int| 0 <= i < C::spec_max_poly_degree() implies #[trigger] r.coeff(i) == if m.coeff(i)
                == 2 {
                C::spec_t() - 1
            } else {
                m.coeff(i)
            } by {
                assert(r.coeff(i) == coeffs@[i]);
            }
        }
        Message { m: r }
    }

    /// Samples a message with random ternary coefficients `-1`, `0` and `1`, with `-1` stored as
    /// `t - 1`: the coefficient of `X^i` is the generator's `i`-th draw from `{0, 1, 2}`, mapped
    /// by [`Yashe::ternary_message_from_draws`].
    pub fn sample_ternary_message(&self, rng: &mut ThreadRng) -> (r: Message<C>)
        ensures
            r.m.is_canonical(),
            forall|i: int|
                0 <= i < C::spec_max_poly_degree() ==> #[trigger] r.m.coeff(i) == 0 || r.m.coeff(i) == 1 || r.m.coeff(i)
                    == C::spec_t() - 1,
            exists|draws: Seq<u64>|
                #![trigger draws.len()]
                draws.len() == C::spec_max_poly_degree() && (forall|j: int| 0 <= j < draws.len() ==> #[trigger] draws[j] <= 2)
                    && (forall|i: int|
                    0 <= i < C::spec_max_poly_degree() ==> #[trigger] r.m.coeff(i) == if draws[i] == 2 {
                        C::spec_t() - 1
                    } else {
                        draws[i] as int
                    }),
    {
        let draws = draw_inclusive(rng, 0, 2, C::max_poly_degree());
        let ghost d = draws@;
        let r = self.ternary_message_from_draws(draws);
        proof {
            assert(d.len() == C::spec_max_poly_degree());
            assert forall|i: int| 0 <= i < C::spec_max_poly_degree() implies #[trigger] r.m.coeff(i) == 0 || r.m.coeff(i)
                == 1 || r.m.coeff(i) == C::spec_t() - 1 by {
                assert(d[i] <= 2);
            }
        }
        r
    }

    /// Samples a message with random binary coefficients `0` and `1`: the coefficient of `X^i` is
    /// the generator's `i`-th draw from `{0, 1}`.
    pub fn sample_binary_message(&self, rng: &mut ThreadRng) -> (r: Message<C>)
        ensures
            r.m.is_canonical(),
            forall|i: int| 0 <= i < C::spec_max_poly_degree() ==> #[trigger] r.m.coeff(i) == 0 || r.m.coeff(i) == 1,
            exists|draws: Seq<u64>|
                #![trigger draws.len()]
                draws.len() == C::spec_max_poly_degree() && (forall|j: int| 0 <= j < draws.len() ==> #[trigger] draws[j] <= 1)
                    && (forall|i: int| 0 <= i < C::spec_max_poly_degree() ==> #[trigger] r.m.coeff(i) == draws[i]),
    {
        let draws = draw_inclusive(rng, 0, 1, C::max_poly_degree());
        let ghost d = draws@;
        let r = self.binary_message_from_draws(draws);
        proof {
            assert(d.len() == C::spec_max_poly_degree());
            assert forall|i: int| 0 <= i < C::spec_max_poly_degree() implies #[trigger] r.m.coeff(i) == 0 || r.m.coeff(i)
                == 1 by {
                assert(d[i] <= 1);
            }
        }
        r
    }
}

} // verus!
