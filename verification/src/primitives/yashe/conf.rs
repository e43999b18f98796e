//! Fixed parameters for the YASHE encryption scheme.
use vstd::prelude::*;

use crate::conf::TinyTest;
use crate::encoded::conf::{FullRes, MiddleRes};
use crate::primitives::poly::conf::{FullResBN, MiddleResBN, PolyConf, TinyTestBN};
use crate::primitives::poly::fq::fq66bn::Fq66bnConfig;
use crate::primitives::poly::fq::fq79bn::Fq79bnConfig;
use crate::primitives::poly::fq::fq_tiny_bn::Fq4Config as FqTinyBnConfig;
use crate::primitives::poly::fq::FieldConf;
use crate::primitives::wide::{radix, Wide};

verus! {

/// The lifted coefficient modulus used to hold exact products during ciphertext multiplication.
pub trait LiftConf {
    /// The lifted modulus.
    spec fn spec_lifted_modulus() -> nat;

    /// Returns the lifted modulus.
    fn lifted_modulus() -> (r: Wide)
        ensures
            r.value() == Self::spec_lifted_modulus(),
    ;
}

/// The parameters a YASHE configuration must have: a plaintext modulus `t` between 2 and `2^16`,
/// below the ciphertext modulus `q`; an odd lifted modulus above `q`, small enough that scaled
/// lifted values stay within 128-bit quotients; and a degree small enough that exact products of
/// reduced polynomials stay below `2^172`.
pub open spec fn yashe_params_valid(t: nat, q: int, n: nat, lifted: nat) -> bool {
    &&& 2 <= t <= 0x1_0000
    &&& t < q
    &&& q < lifted
    &&& lifted % 2 == 1
    &&& lifted < 0x400_0000_0000_0000_0000_0000_0000_0000_0000_0000_0000
    &&& lifted * t <= q * 0x100_0000_0000_0000_0000_0000_0000_0000
    &&& n <= 0x1000
}

/// Fixed YASHE encryption scheme parameters: the plaintext modulus `t`, and the lifted modulus
/// for ciphertext multiplication. The [`PolyConf`] supertrait is the configuration of the
/// polynomials used in the scheme.
///
/// Encryption keys and ciphertexts with different parameters are incompatible.
pub trait YasheConf: PolyConf {
    /// The lifted coefficient configuration.
    type PolyBN: LiftConf;

    /// The plaintext coefficient modulus `t`, a power of two smaller than the modulus.
    spec fn spec_t() -> nat;

    /// Returns `t`.
    fn t() -> (r: u64)
        ensures
            r == Self::spec_t(),
    ;

    /// The parameters are valid.
    proof fn lemma_yashe_conf_valid()
        ensures
            yashe_params_valid(
                Self::spec_t(),
                Self::spec_modulus(),
                Self::spec_max_poly_degree(),
                Self::PolyBN::spec_lifted_modulus(),
            ),
    ;
}

impl LiftConf for FullResBN {
    open spec fn spec_lifted_modulus() -> nat {
        Fq79bnConfig::spec_modulus()
    }

    fn lifted_modulus() -> (r: Wide) {
        let r = Wide { hi: 15861843385601347106769362926508i128, lo: 7721832132228418169u64 };
        assert(r.value() == 15861843385601347106769362926508 * radix() + 7721832132228418169);
        r
    }
}

impl LiftConf for MiddleResBN {
    open spec fn spec_lifted_modulus() -> nat {
        Fq66bnConfig::spec_modulus()
    }

    fn lifted_modulus() -> (r: Wide) {
        let r = Wide { hi: 477626998335050760584559i128, lo: 16729443713346653735u64 };
        assert(r.value() == 477626998335050760584559 * radix() + 16729443713346653735);
        r
    }
}

impl LiftConf for TinyTestBN {
    open spec fn spec_lifted_modulus() -> nat {
        FqTinyBnConfig::spec_modulus()
    }

    fn lifted_modulus() -> (r: Wide) {
        Wide { hi: 0, lo: 5399 }
    }
}

/// Full resolution parameters.
///
/// The plaintext modulus holds the signed inner product of a whole block of full resolution
/// rows, from `-1600` to `1600`.
impl YasheConf for FullRes {
    type PolyBN = FullResBN;

    open spec fn spec_t() -> nat {
        4096
    }

    fn t() -> (r: u64) {
        4096
    }

    proof fn lemma_yashe_conf_valid() {
    }
}

/// Middle resolution parameters.
impl YasheConf for MiddleRes {
    type PolyBN = MiddleResBN;

    open spec fn spec_t() -> nat {
        256
    }

    fn t() -> (r: u64) {
        256
    }

    proof fn lemma_yashe_conf_valid() {
    }
}

/// Tiny test parameters, limited by the tiny coefficient modulus.
impl YasheConf for TinyTest {
    type PolyBN = TinyTestBN;

    open spec fn spec_t() -> nat {
        4
    }

    fn t() -> (r: u64) {
        4
    }

    proof fn lemma_yashe_conf_valid() {
    }
}

} // verus!
