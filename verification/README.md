# eyelid_match_ops

Private iris matching with the YASHE homomorphic encryption scheme, verified with Verus.

Iris codes are encoded into polynomials of the ring `Z_q[X] / (X^N + 1)`; multiplying a query
encoding by a code encoding yields coefficients that count the matching unmasked bits of every
rotation at once. The encodings can be encrypted with YASHE, multiplied homomorphically, and
decrypted with the square of the private key.

Layout:

- `src/plaintext.rs`: matching on raw bit vectors, with rotations and masks.
- `src/encoded.rs`: the same matching on polynomial encodings; `src/encoded/agreement.rs` proves
  that the encoded matching agrees with the plaintext matching.
- `src/encrypted.rs`: matching on encrypted encodings; `src/encrypted/agreement.rs` proves that,
  when the noise is small, the encrypted matching agrees with the encoded and the plaintext
  matching.
- `src/primitives/poly`: the polynomial ring (reduction, schoolbook, recursive and flat Karatsuba
  multiplication, long division, inverse by the extended Euclidean algorithm; `divides.rs` proves
  that, the modulus being prime, the inverse fails exactly on the elements that have none).
- `src/primitives/field/primality.rs`: Fermat's little theorem and Pocklington's criterion;
  `certificates.rs` uses them to prove every coefficient modulus prime.
- `src/primitives/yashe`: the YASHE scheme (key derivation, encryption, decryption, homomorphic
  addition and multiplication with exact wide-integer rounding); `correctness.rs` and
  `product.rs` prove that decryption undoes encryption, addition and multiplication, whenever the
  noise is small.
- `src/primitives/hamming.rs`: a simple homomorphic Hamming distance encoding, with the proof
  that its homomorphic distance decrypts to the Hamming distance when the noise is small.
- `src/primitives/montgomery.rs`: Montgomery multiplication of full-resolution coefficients
  held as two 64-bit limbs, the reference for limb-level field arithmetic.
- `app/lib.rs`: Gaussian sampling, key generation and encryption with sampled errors, which the
  verified library takes as arguments.
