//! Flat (iterative) Karatsuba multiplication in `Z_q[X] / (X^N + 1)`.
use vstd::arithmetic::div_mod::*;
use vstd::prelude::*;

use crate::primitives::poly::algebra::{
    conv, conv_seq, get, lemma_conv_cong, lemma_get_conv_seq, lemma_get_padd, lemma_get_psub,
    lemma_get_shift, lemma_karatsuba_identity, lemma_ring_add_cong, lemma_ring_seq_cong,
    lemma_ring_shift_cong, lemma_ring_sub_cong, padd, psub, ring_mul, ring_seq, shift,
};
use crate::primitives::poly::algebra::cong;
use crate::primitives::poly::conf::{is_pow2, PolyConf};
use crate::primitives::poly::trivial::lemma_pointwise_ring;
use crate::primitives::poly::Poly;

verus! {

/// Initial layer of the flat Karatsuba loop: the first layer multiplies blocks of
/// `2^(FLAT_KARATSUBA_INITIAL_LAYER - 1)` coefficients.
pub const FLAT_KARATSUBA_INITIAL_LAYER: u32 = 3;

/// The number of coefficients in each block of the first layer of the flat Karatsuba loop,
/// `2^(FLAT_KARATSUBA_INITIAL_LAYER - 1)`.
const FLAT_KARATSUBA_INITIAL_CHUNK: usize = 4;

/// The `j`-th block of `k` coefficients of `s`: those of `X^(j k)` up to `X^(j k + k - 1)`.
pub open spec fn chunk(s: Seq<int>, k: nat, j: int) -> Seq<int> {
    Seq::new(k, |i: int| get(s, j * k + i))
}

/// A block of `2k` coefficients is the block of its first `k` coefficients plus `X^k` times
/// the block of the next `k`.
proof fn lemma_chunk_halves(s: Seq<int>, k: nat, j: int)
    requires
        j >= 0,
    ensures
        forall|i: int|
            #[trigger] get(chunk(s, 2 * k, j), i) == get(chunk(s, k, 2 * j), i) + get(chunk(s, k, 2 * j + 1), i - k),
{
    assert forall|i: int|
        #[trigger] get(chunk(s, 2 * k, j), i) == get(chunk(s, k, 2 * j), i) + get(chunk(s, k, 2 * j + 1), i - k) by {
        assert(j * (2 * k) == (2 * j) * k) by (nonlinear_arith);
        assert((2 * j + 1) * k == (2 * j) * k + k) by (nonlinear_arith);
    }
}

/// Ring products of factors that agree at every index agree.
proof fn lemma_ring_mul_get_eq(a: Seq<int>, a2: Seq<int>, b: Seq<int>, b2: Seq<int>, n: nat, q: int)
    requires
        n > 0,
        q > 0,
        forall|i: int| #[trigger] get(a, i) == get(a2, i),
        forall|i: int| #[trigger] get(b, i) == get(b2, i),
    ensures
        ring_mul(a, b, n, q) == ring_mul(a2, b2, n, q),
{
    assert(cong(a, a2, q)) by {
        assert forall|i: int| #[trigger] get(a, i) % q == #[trigger] get(a2, i) % q by {
            assert(get(a, i) == get(a2, i));
        }
    }
    assert(cong(b, b2, q)) by {
        assert forall|i: int| #[trigger] get(b, i) % q == #[trigger] get(b2, i) % q by {
            assert(get(b, i) == get(b2, i));
        }
    }
    assert forall|k: int| #[trigger] get(conv_seq(a, b), k) % q == #[trigger] get(conv_seq(a2, b2), k) % q by {
        lemma_get_conv_seq(a, b, k);
        lemma_get_conv_seq(a2, b2, k);
        lemma_conv_cong(a, a2, b, b2, q, k);
    }
    lemma_ring_seq_cong(conv_seq(a, b), conv_seq(a2, b2), n, q);
}

/// Splits the polynomial into `N / k` parts of `k` coefficients each, in order from the constant
/// term upwards. Any of the parts can be zero.
pub fn poly_split<C: PolyConf>(a: &Poly<C>, k: usize) -> (r: Vec<Poly<C>>)
    requires
        a.wf(),
        1 <= k <= C::spec_max_poly_degree(),
    ensures
        r@.len() == C::spec_max_poly_degree() / (k as nat),
        forall|j: int| 0 <= j < r@.len() ==> #[trigger] r@[j].is_canonical(),
        forall|j: int, i: int|
            0 <= j < r@.len() ==> #[trigger] r@[j].coeff(i) == get(chunk(a.ints(), k as nat, j), i),
{
    let n = C::max_poly_degree();
    let parts = n / k;
    let len = a.coeffs.len();
    let mut res: Vec<Poly<C>> = Vec::new();
    let mut j: usize = 0;
    while j < parts
        invariant
            j <= parts,
            parts == n / k,
            n == C::spec_max_poly_degree(),
            1 <= k <= n,
            len == a.coeffs@.len(),
            a.wf(),
            res@.len() == j,
            forall|t: int| 0 <= t < j ==> #[trigger] res@[t].is_canonical(),
            forall|t: int, i: int|
                0 <= t < j ==> #[trigger] res@[t].coeff(i) == get(chunk(a.ints(), k as nat, t), i),
        decreases parts - j,
    {
        proof {
            lemma_fundamental_div_mod(n as int, k as int);
            vstd::arithmetic::mul::lemma_mul_inequality((j + 1) as int, parts as int, k as int);
            assert((j + 1) * k == j * k + k) by (nonlinear_arith);
            assert(k * parts == parts * k) by (nonlinear_arith);
        }
        let lo = j * k;
        let p = if lo < len {
            let hi = if lo + k < len {
                lo + k
            } else {
                len
            };
            let p = a.from_coefficients_range(lo, hi);
            proof {
                assert forall|i: int| p.coeff(i) == get(chunk(a.ints(), k as nat, j as int), i) by {
                    if 0 <= i < k && i >= hi - lo {
                        assert(a.coeff(lo + i) == 0);
                    }
                }
            }
            p
        } else {
            let p = Poly::zero();
            proof {
                assert forall|i: int| p.coeff(i) == get(chunk(a.ints(), k as nat, j as int), i) by {
                    if 0 <= i < k {
                        assert(a.coeff(lo + i) == 0);
                    }
                }
            }
            p
        };
        res.push(p);
        j += 1;
    }
    res
}

/// Returns `a * b` reduced by `X^N + 1`, using the flat Karatsuba method: the layers of the
/// Karatsuba recursion are computed from the bottom up, each layer combining pairs of products
/// of blocks into products of blocks twice as long. The chunks of a layer are independent of
/// each other.
///
/// Both factors have fewer than `N` coefficients.
#[verifier::rlimit(40)]
pub fn flat_karatsuba_mul<C: PolyConf>(a: &Poly<C>, b: &Poly<C>) -> (r: Poly<C>)
    requires
        a.wf(),
        b.wf(),
        a.coeffs@.len() <= C::spec_max_poly_degree(),
        b.coeffs@.len() <= C::spec_max_poly_degree(),
    ensures
        r.is_canonical(),
        r.ring() == ring_mul(a.ints(), b.ints(), C::spec_max_poly_degree(), C::spec_modulus()),
{
    proof {
        C::lemma_conf_valid();
    }
    let ghost q = C::spec_modulus();
    let ghost aa = a.ints();
    let ghost bb = b.ints();
    let n = C::max_poly_degree();
    proof {
        assert(n % 2 == 0 && is_pow2((n / 2) as nat));
        assert((n / 2) % 2 == 0 && is_pow2((n / 4) as nat));
        assert((n / 4) % 2 == 0 && is_pow2((n / 8) as nat));
        assert(n % 8 == 0);
    }
    let mut chunk_size: usize = FLAT_KARATSUBA_INITIAL_CHUNK;
    let first_layer_length = n / chunk_size;
    let mut polys_current_layer: Vec<Poly<C>> = Vec::new();
    let a_chunks = poly_split(a, chunk_size);
    let b_chunks = poly_split(b, chunk_size);
    // The first layer: products of blocks of `2 chunk_size` coefficients, from the schoolbook
    // products of their halves.
    let mut i: usize = 0;
    while i < first_layer_length / 2
        invariant
            i <= first_layer_length / 2,
            chunk_size == 4,
            n == C::spec_max_poly_degree(),
            q == C::spec_modulus(),
            8 <= n,
            n % 8 == 0,
            is_pow2((n / 8) as nat),
            first_layer_length == n / 4,
            aa == a.ints(),
            bb == b.ints(),
            a_chunks@.len() == first_layer_length,
            b_chunks@.len() == first_layer_length,
            forall|j: int| 0 <= j < a_chunks@.len() ==> #[trigger] a_chunks@[j].is_canonical(),
            forall|j: int, t: int|
                0 <= j < a_chunks@.len() ==> #[trigger] a_chunks@[j].coeff(t) == get(chunk(aa, 4, j), t),
            forall|j: int| 0 <= j < b_chunks@.len() ==> #[trigger] b_chunks@[j].is_canonical(),
            forall|j: int, t: int|
                0 <= j < b_chunks@.len() ==> #[trigger] b_chunks@[j].coeff(t) == get(chunk(bb, 4, j), t),
            polys_current_layer@.len() == i,
            forall|t: int| 0 <= t < i ==> (#[trigger] polys_current_layer@[t]).wf(),
            forall|t: int| 0 <= t < i ==> (#[trigger] polys_current_layer@[t]).coeffs@.len() <= n,
            forall|t: int|
                0 <= t < i ==> (#[trigger] polys_current_layer@[t]).ring() == ring_mul(chunk(aa, 8, t), chunk(bb, 8, t), n as nat, q),
        decreases first_layer_length / 2 - i,
    {
        let al = &a_chunks[2 * i];
        let ar = &a_chunks[2 * i + 1];
        let bl = &b_chunks[2 * i];
        let br = &b_chunks[2 * i + 1];
        proof {
            assert(a_chunks@[2 * i as int].is_canonical());
            assert(a_chunks@[2 * i + 1].is_canonical());
            assert(b_chunks@[2 * i as int].is_canonical());
            assert(b_chunks@[2 * i + 1].is_canonical());
            super::lemma_len_bound(al, 4);
            super::lemma_len_bound(ar, 4);
            super::lemma_len_bound(bl, 4);
            super::lemma_len_bound(br, 4);
        }
        let albl = al.naive_mul(bl);
        let arbr = ar.naive_mul(br);
        proof {
            assert forall|k: int| albl.coeff(k) == get(conv_seq(al.ints(), bl.ints()), k) % q by {
                lemma_get_conv_seq(al.ints(), bl.ints(), k);
            }
            lemma_pointwise_ring(&albl, conv_seq(al.ints(), bl.ints()));
            assert forall|k: int| arbr.coeff(k) == get(conv_seq(ar.ints(), br.ints()), k) % q by {
                lemma_get_conv_seq(ar.ints(), br.ints(), k);
            }
            lemma_pointwise_ring(&arbr, conv_seq(ar.ints(), br.ints()));
            lemma_chunk_halves(aa, 4, i as int);
            lemma_chunk_halves(bb, 4, i as int);
            assert forall|t: int| #[trigger] get(chunk(aa, 8, i as int), t) == get(al.ints(), t) + get(ar.ints(), t - 4) by {
                assert(al.coeff(t) == get(chunk(aa, 4, 2 * i), t));
                assert(ar.coeff(t - 4) == get(chunk(aa, 4, 2 * i + 1), t - 4));
            }
            assert forall|t: int| #[trigger] get(chunk(bb, 8, i as int), t) == get(bl.ints(), t) + get(br.ints(), t - 4) by {
                assert(bl.coeff(t) == get(chunk(bb, 4, 2 * i), t));
                assert(br.coeff(t - 4) == get(chunk(bb, 4, 2 * i + 1), t - 4));
            }
        }
        let res = karatsuba_combine(al, ar, bl, br, &albl, &arbr, chunk_size, Ghost(chunk(aa, 8, i as int)), Ghost(chunk(bb, 8, i as int)));
        polys_current_layer.push(res);
        i += 1;
    }
    chunk_size = chunk_size * 2;
    proof {
        let m = n / 8;
        lemma_fundamental_div_mod(n as int, 8);
        assert(n == 8 * m);
        assert(polys_current_layer@.len() == m);
        assert(polys_current_layer@.len() * chunk_size == n);
    }
    // The later layers: each combines pairs of products of blocks into products of blocks twice
    // as long, until a single product of all coefficients is left.
    while chunk_size < n
        invariant
            n == C::spec_max_poly_degree(),
            q == C::spec_modulus(),
            q > 2,
            aa == a.ints(),
            bb == b.ints(),
            a.wf(),
            b.wf(),
            1 <= chunk_size,
            is_pow2(polys_current_layer@.len() as nat),
            polys_current_layer@.len() * chunk_size == n,
            forall|t: int| 0 <= t < polys_current_layer@.len() ==> (#[trigger] polys_current_layer@[t]).wf(),
            forall|t: int| 0 <= t < polys_current_layer@.len() ==> (#[trigger] polys_current_layer@[t]).coeffs@.len() <= n,
            forall|t: int|
                0 <= t < polys_current_layer@.len() ==> (#[trigger] polys_current_layer@[t]).ring()
                    == ring_mul(chunk(aa, chunk_size as nat, t), chunk(bb, chunk_size as nat, t), n as nat, q),
        decreases n - chunk_size,
    {
        let layer_length = polys_current_layer.len();
        proof {
            if layer_length == 1 {
                assert(chunk_size == n) by (nonlinear_arith)
                    requires
                        layer_length == 1,
                        layer_length * chunk_size == n;
            }
            assert(layer_length % 2 == 0 && is_pow2((layer_length / 2) as nat));
            assert(layer_length * chunk_size == (layer_length / 2) * (2 * chunk_size)) by (nonlinear_arith)
                requires
                    layer_length % 2 == 0;
            assert((layer_length / 2) * (2 * chunk_size) >= 2 * chunk_size) by (nonlinear_arith)
                requires
                    layer_length / 2 >= 1;
            vstd::arithmetic::div_mod::lemma_div_multiples_vanish(layer_length as int, chunk_size as int);
            assert(chunk_size * layer_length == layer_length * chunk_size) by (nonlinear_arith);
        }
        let a_chunks = poly_split(a, chunk_size);
        let b_chunks = poly_split(b, chunk_size);
        let mut polys_next_layer: Vec<Poly<C>> = Vec::new();
        let mut j: usize = 0;
        while j < layer_length / 2
            invariant
                j <= layer_length / 2,
                layer_length == polys_current_layer@.len(),
                layer_length % 2 == 0,
                n == C::spec_max_poly_degree(),
                q == C::spec_modulus(),
                2 * chunk_size <= n,
                1 <= chunk_size,
                a_chunks@.len() == layer_length,
                b_chunks@.len() == layer_length,
                forall|t: int| 0 <= t < a_chunks@.len() ==> #[trigger] a_chunks@[t].is_canonical(),
                forall|t: int, i: int|
                    0 <= t < a_chunks@.len() ==> #[trigger] a_chunks@[t].coeff(i) == get(chunk(aa, chunk_size as nat, t), i),
                forall|t: int| 0 <= t < b_chunks@.len() ==> #[trigger] b_chunks@[t].is_canonical(),
                forall|t: int, i: int|
                    0 <= t < b_chunks@.len() ==> #[trigger] b_chunks@[t].coeff(i) == get(chunk(bb, chunk_size as nat, t), i),
                forall|t: int| 0 <= t < layer_length ==> (#[trigger] polys_current_layer@[t]).wf(),
                forall|t: int| 0 <= t < layer_length ==> (#[trigger] polys_current_layer@[t]).coeffs@.len() <= n,
                forall|t: int|
                    0 <= t < layer_length ==> (#[trigger] polys_current_layer@[t]).ring()
                        == ring_mul(chunk(aa, chunk_size as nat, t), chunk(bb, chunk_size as nat, t), n as nat, q),
                polys_next_layer@.len() == j,
                forall|t: int| 0 <= t < j ==> (#[trigger] polys_next_layer@[t]).wf(),
                forall|t: int| 0 <= t < j ==> (#[trigger] polys_next_layer@[t]).coeffs@.len() <= n,
                forall|t: int|
                    0 <= t < j ==> (#[trigger] polys_next_layer@[t]).ring()
                        == ring_mul(chunk(aa, (2 * chunk_size) as nat, t), chunk(bb, (2 * chunk_size) as nat, t), n as nat, q),
            decreases layer_length / 2 - j,
        {
            let al = &a_chunks[2 * j];
            let ar = &a_chunks[2 * j + 1];
            let bl = &b_chunks[2 * j];
            let br = &b_chunks[2 * j + 1];
            let albl = &polys_current_layer[2 * j];
            let arbr = &polys_current_layer[2 * j + 1];
            proof {
                C::lemma_conf_valid();
                assert(a_chunks@[2 * j as int].is_canonical());
                assert(a_chunks@[2 * j + 1].is_canonical());
                assert(b_chunks@[2 * j as int].is_canonical());
                assert(b_chunks@[2 * j + 1].is_canonical());
                super::lemma_len_bound(al, chunk_size as int);
                super::lemma_len_bound(ar, chunk_size as int);
                super::lemma_len_bound(bl, chunk_size as int);
                super::lemma_len_bound(br, chunk_size as int);
                assert forall|t: int| #[trigger] get(al.ints(), t) == get(chunk(aa, chunk_size as nat, 2 * j), t) by {
                    assert(al.coeff(t) == get(chunk(aa, chunk_size as nat, 2 * j), t));
                }
                assert forall|t: int| #[trigger] get(bl.ints(), t) == get(chunk(bb, chunk_size as nat, 2 * j), t) by {
                    assert(bl.coeff(t) == get(chunk(bb, chunk_size as nat, 2 * j), t));
                }
                assert forall|t: int| #[trigger] get(ar.ints(), t) == get(chunk(aa, chunk_size as nat, 2 * j + 1), t) by {
                    assert(ar.coeff(t) == get(chunk(aa, chunk_size as nat, 2 * j + 1), t));
                }
                assert forall|t: int| #[trigger] get(br.ints(), t) == get(chunk(bb, chunk_size as nat, 2 * j + 1), t) by {
                    assert(br.coeff(t) == get(chunk(bb, chunk_size as nat, 2 * j + 1), t));
                }
                lemma_ring_mul_get_eq(al.ints(), chunk(aa, chunk_size as nat, 2 * j), bl.ints(), chunk(bb, chunk_size as nat, 2 * j), n as nat, q);
                lemma_ring_mul_get_eq(ar.ints(), chunk(aa, chunk_size as nat, 2 * j + 1), br.ints(), chunk(bb, chunk_size as nat, 2 * j + 1), n as nat, q);
                lemma_chunk_halves(aa, chunk_size as nat, j as int);
                lemma_chunk_halves(bb, chunk_size as nat, j as int);
                assert forall|t: int| #[trigger] get(chunk(aa, (2 * chunk_size) as nat, j as int), t) == get(al.ints(), t) + get(ar.ints(), t - chunk_size) by {
                    assert(get(ar.ints(), t - chunk_size) == get(chunk(aa, chunk_size as nat, 2 * j + 1), t - chunk_size));
                }
                assert forall|t: int| #[trigger] get(chunk(bb, (2 * chunk_size) as nat, j as int), t) == get(bl.ints(), t) + get(br.ints(), t - chunk_size) by {
                    assert(get(br.ints(), t - chunk_size) == get(chunk(bb, chunk_size as nat, 2 * j + 1), t - chunk_size));
                }
            }
            let res = karatsuba_combine(
                al,
                ar,
                bl,
                br,
                albl,
                arbr,
                chunk_size,
                Ghost(chunk(aa, (2 * chunk_size) as nat, j as int)),
                Ghost(chunk(bb, (2 * chunk_size) as nat, j as int)),
            );
            polys_next_layer.push(res);
            j += 1;
        }
        polys_current_layer = polys_next_layer;
        chunk_size = chunk_size * 2;
    }
    proof {
        C::lemma_conf_valid();
        let len = polys_current_layer@.len();
        assert(len >= 1);
        if len >= 2 {
            assert(len * chunk_size >= 2 * chunk_size) by (nonlinear_arith)
                requires
                    len >= 2;
        }
        assert(len == 1);
        assert(chunk_size == n) by (nonlinear_arith)
            requires
                len == 1,
                len * chunk_size == n;
        assert forall|t: int| #[trigger] get(chunk(aa, n as nat, 0), t) == get(aa, t) by {
            if t >= n {
                assert(get(aa, t) == 0);
            }
        }
        assert forall|t: int| #[trigger] get(chunk(bb, n as nat, 0), t) == get(bb, t) by {
            if t >= n {
                assert(get(bb, t) == 0);
            }
        }
        lemma_ring_mul_get_eq(chunk(aa, n as nat, 0), aa, chunk(bb, n as nat, 0), bb, n as nat, q);
    }
    let mut res = polys_current_layer.remove(0);
    // A single final reduction
    res.reduce_mod_poly();
    res
}

/// Combines the products of the halves of two factors into the product of the factors, by
/// Karatsuba's identity. With `a = al + X^h ar`, `b = bl + X^h br`, and `albl`, `arbr` the
/// products of the halves, returns
/// `al bl + X^h ((al + ar)(bl + br) - al bl - ar br) + X^(2h) ar br`,
/// where the middle product is taken with the schoolbook method. The result represents `a * b`
/// in the ring; it is not brought into canonical form.
fn karatsuba_combine<C: PolyConf>(
    al: &Poly<C>,
    ar: &Poly<C>,
    bl: &Poly<C>,
    br: &Poly<C>,
    albl: &Poly<C>,
    arbr: &Poly<C>,
    h: usize,
    Ghost(aa): Ghost<Seq<int>>,
    Ghost(bb): Ghost<Seq<int>>,
) -> (r: Poly<C>)
    requires
        al.wf(),
        ar.wf(),
        bl.wf(),
        br.wf(),
        albl.wf(),
        arbr.wf(),
        al.coeffs@.len() <= h,
        ar.coeffs@.len() <= h,
        bl.coeffs@.len() <= h,
        br.coeffs@.len() <= h,
        2 * h <= C::spec_max_poly_degree(),
        albl.coeffs@.len() <= C::spec_max_poly_degree(),
        arbr.coeffs@.len() <= C::spec_max_poly_degree(),
        albl.ring() == ring_mul(al.ints(), bl.ints(), C::spec_max_poly_degree(), C::spec_modulus()),
        arbr.ring() == ring_mul(ar.ints(), br.ints(), C::spec_max_poly_degree(), C::spec_modulus()),
        forall|i: int| #[trigger] get(aa, i) == get(al.ints(), i) + get(ar.ints(), i - h),
        forall|i: int| #[trigger] get(bb, i) == get(bl.ints(), i) + get(br.ints(), i - h),
    ensures
        r.wf(),
        r.coeffs@.len() <= C::spec_max_poly_degree(),
        r.ring() == ring_mul(aa, bb, C::spec_max_poly_degree(), C::spec_modulus()),
{
    proof {
        C::lemma_conf_valid();
    }
    let ghost n = C::spec_max_poly_degree();
    let ghost q = C::spec_modulus();
    let ghost al0 = al.ints();
    let ghost ar0 = ar.ints();
    let ghost bl0 = bl.ints();
    let ghost br0 = br.ints();
    let ghost albl0 = albl.ints();
    let ghost arbr0 = arbr.ints();
    let alpar = al.add(ar);
    let blpbr = bl.add(br);
    // y = (al + ar).(bl + br)
    let mut res = alpar.naive_mul(&blpbr);
    let ghost r0 = res;
    let ghost y0 = res.ints();
    res = res.sub(albl);
    let ghost r1 = res;
    let ghost y1 = res.ints();
    res = res.sub(arbr);
    let ghost r2 = res;
    let ghost y2 = res.ints();
    assert(res.coeffs@.len() <= n);
    res.mul_xn(h);
    let ghost r3 = res;
    let ghost y3 = res.ints();
    res = albl.add(&res);
    let ghost r4 = res;
    let ghost y4 = res.ints();
    let aux = arbr.new_mul_xn(2 * h);
    let ghost aux0 = aux.ints();
    res = res.add(&aux);
    proof {
        let p1 = conv_seq(al0, bl0);
        let p3 = conv_seq(ar0, br0);
        let ss = padd(al0, ar0);
        let tt = padd(bl0, br0);
        let z = padd(conv_seq(al0, br0), conv_seq(ar0, bl0));
        let low = padd(p1, shift(z, h as nat));
        let full = padd(low, shift(p3, (2 * h) as nat));
        // Karatsuba's identity, coefficient by coefficient
        assert forall|k: int| #[trigger] get(conv_seq(aa, bb), k) % q == get(full, k) % q by {
            lemma_karatsuba_identity(aa, al0, ar0, bb, bl0, br0, h as nat, k);
            lemma_get_conv_seq(aa, bb, k);
            lemma_get_conv_seq(al0, bl0, k);
            lemma_get_conv_seq(ar0, br0, k - 2 * h);
            lemma_get_conv_seq(al0, br0, k - h);
            lemma_get_conv_seq(ar0, bl0, k - h);
            lemma_get_padd(low, shift(p3, (2 * h) as nat), k);
            lemma_get_padd(p1, shift(z, h as nat), k);
            lemma_get_shift(p3, (2 * h) as nat, k);
            lemma_get_shift(z, h as nat, k);
            lemma_get_padd(conv_seq(al0, br0), conv_seq(ar0, bl0), k - h);
        }
        lemma_ring_seq_cong(conv_seq(aa, bb), full, n, q);
        // the middle product, from the sums of the halves
        assert forall|k: int| #[trigger] get(conv_seq(ss, tt), k) % q == get(y0, k) % q by {
            assert forall|i: int| #[trigger] get(alpar.ints(), i) % q == #[trigger] get(ss, i) % q by {
                assert(alpar.coeff(i) == (get(al0, i) + get(ar0, i)) % q);
                lemma_get_padd(al0, ar0, i);
                lemma_mod_twice(get(ss, i), q);
            }
            assert forall|i: int| #[trigger] get(blpbr.ints(), i) % q == #[trigger] get(tt, i) % q by {
                assert(blpbr.coeff(i) == (get(bl0, i) + get(br0, i)) % q);
                lemma_get_padd(bl0, br0, i);
                lemma_mod_twice(get(tt, i), q);
            }
            lemma_conv_cong(alpar.ints(), ss, blpbr.ints(), tt, q, k);
            lemma_get_conv_seq(ss, tt, k);
            assert(r0.coeff(k) == conv(alpar.ints(), blpbr.ints(), k) % q);
            lemma_mod_twice(conv(alpar.ints(), blpbr.ints(), k), q);
        }
        lemma_ring_seq_cong(conv_seq(ss, tt), y0, n, q);
        // the middle terms: y - al bl - ar br
        let m1 = psub(conv_seq(ss, tt), p1);
        let m2 = psub(m1, p3);
        let d1 = psub(y0, albl0);
        let d2 = psub(y1, arbr0);
        assert forall|i: int| #[trigger] get(y1, i) % q == get(d1, i) % q by {
            assert(r1.coeff(i) == (r0.coeff(i) - albl.coeff(i)) % q);
            lemma_get_psub(y0, albl0, i);
            lemma_mod_twice(get(d1, i), q);
        }
        lemma_ring_seq_cong(y1, d1, n, q);
        assert forall|i: int| #[trigger] get(d1, i) == get(y0, i) - get(albl0, i) by {
            lemma_get_psub(y0, albl0, i);
        }
        assert forall|i: int| #[trigger] get(m1, i) == get(conv_seq(ss, tt), i) - get(p1, i) by {
            lemma_get_psub(conv_seq(ss, tt), p1, i);
        }
        lemma_ring_sub_cong(d1, y0, albl0, m1, conv_seq(ss, tt), p1, n, q);
        assert forall|i: int| #[trigger] get(y2, i) % q == get(d2, i) % q by {
            assert(r2.coeff(i) == (r1.coeff(i) - arbr.coeff(i)) % q);
            lemma_get_psub(y1, arbr0, i);
            lemma_mod_twice(get(d2, i), q);
        }
        lemma_ring_seq_cong(y2, d2, n, q);
        assert forall|i: int| #[trigger] get(d2, i) == get(y1, i) - get(arbr0, i) by {
            lemma_get_psub(y1, arbr0, i);
        }
        assert forall|i: int| #[trigger] get(m2, i) == get(m1, i) - get(p3, i) by {
            lemma_get_psub(m1, p3, i);
        }
        lemma_ring_sub_cong(d2, y1, arbr0, m2, m1, p3, n, q);
        assert forall|k: int| #[trigger] get(m2, k) % q == get(z, k) % q by {
            lemma_karatsuba_identity(aa, al0, ar0, bb, bl0, br0, h as nat, k);
            lemma_get_psub(m1, p3, k);
            lemma_get_psub(conv_seq(ss, tt), p1, k);
            lemma_get_conv_seq(ss, tt, k);
            lemma_get_conv_seq(al0, bl0, k);
            lemma_get_conv_seq(ar0, br0, k);
            lemma_get_conv_seq(al0, br0, k);
            lemma_get_conv_seq(ar0, bl0, k);
            lemma_get_padd(conv_seq(al0, br0), conv_seq(ar0, bl0), k);
        }
        lemma_ring_seq_cong(m2, z, n, q);
        // the shifted terms
        lemma_ring_shift_cong(y2, z, h as nat, n, q);
        lemma_ring_shift_cong(arbr0, p3, (2 * h) as nat, n, q);
        // the sums
        let s1 = padd(albl0, y3);
        let s2 = padd(y4, aux0);
        assert forall|i: int| #[trigger] get(y4, i) % q == get(s1, i) % q by {
            assert(r4.coeff(i) == (albl.coeff(i) + r3.coeff(i)) % q);
            lemma_get_padd(albl0, y3, i);
            lemma_mod_twice(get(s1, i), q);
        }
        lemma_ring_seq_cong(y4, s1, n, q);
        assert forall|i: int| #[trigger] get(s1, i) == get(albl0, i) + get(y3, i) by {
            lemma_get_padd(albl0, y3, i);
        }
        assert forall|i: int| #[trigger] get(low, i) == get(p1, i) + get(shift(z, h as nat), i) by {
            lemma_get_padd(p1, shift(z, h as nat), i);
        }
        lemma_ring_add_cong(s1, albl0, y3, low, p1, shift(z, h as nat), n, q);
        assert forall|i: int| #[trigger] get(res.ints(), i) % q == get(s2, i) % q by {
            assert(res.coeff(i) == (r4.coeff(i) + aux.coeff(i)) % q);
            lemma_get_padd(y4, aux0, i);
            lemma_mod_twice(get(s2, i), q);
        }
        lemma_ring_seq_cong(res.ints(), s2, n, q);
        assert forall|i: int| #[trigger] get(s2, i) == get(y4, i) + get(aux0, i) by {
            lemma_get_padd(y4, aux0, i);
        }
        assert forall|i: int| #[trigger] get(full, i) == get(low, i) + get(shift(p3, (2 * h) as nat), i) by {
            lemma_get_padd(low, shift(p3, (2 * h) as nat), i);
        }
        lemma_ring_add_cong(s2, y4, aux0, full, low, shift(p3, (2 * h) as nat), n, q);
    }
    res
}

} // verus!
