# silent_fhe

Verified core of the `silent-fhe` homomorphic-encryption schemes (BFV, BGV,
TFHE and short-integer TFHE), written in Verus. Every function in `src/` is
proved against its `requires` / `ensures` contract.

## Layout

- `src/modarith.rs` – modular arithmetic on `u64` residues, inverses, gcd and
  primes, centered lifts.
- `src/polymod.rs` – polynomials over `Z / m`: evaluation, Lagrange
  interpolation, negacyclic products.
- `src/wide.rs` – arbitrary-precision integers (`WideInt`) backed by
  `num-bigint`; the few trusted wrappers around it live here.
- `src/schemes/bfv` – BFV multiplication-method selection, the plaintext
  scale `Δ = ⌊Q / t⌋` in RNS form, ciphertext addition and subtraction.
- `src/schemes/bgv` – BGV parameters and modulus chains, ciphertexts with
  their plaintext factor and noise degree, modulus switching, plaintext and
  ciphertext arithmetic, gadget decomposition and relinearization, RNS and CRT
  reconstruction, and the bootstrapping plans and classifiers.
- `src/schemes/tfhe`, `src/schemes/shortint` – TFHE encodings, lookup-table
  layout, sampling of keys, masks and T-uniform noise, and the short-integer
  operation tables.
- `tests/` – tests on concrete values.
- `app/` – configuration from the environment, Gaussian noise (floating point)
  and error types with `std::error::Error`.

## What is not here

Polynomials are held in coefficient form. Everything that goes through the
number-theoretic transform or the RNS base-conversion tools of the workspace's
ring, RLWE and parameter crates is outside this library: BFV multiplication
and key switching, encryption, decryption and key generation, batch encoding,
fast rotations and the TFHE blind rotation. Where such a step feeds a verified
function (a Galois coefficient map, a phase computed from a secret key, the
result of a prime search), the verified function takes it as an argument.
