//! BGV over an RNS modulus chain: level errors and modulus-switching
//! constants, plaintext scale factors, Galois element bookkeeping for slot
//! rotations, and the plaintext polynomial arithmetic of the bootstrap.

pub mod bootstrap;
pub mod ciphertext;
pub mod crt;
pub mod crypto;
pub mod decode_lift;
pub mod galois_map;
pub mod keys;
pub mod ops;
pub mod params;
pub mod plans;
pub mod rns_big;
pub mod same_field;
pub mod scheme;
