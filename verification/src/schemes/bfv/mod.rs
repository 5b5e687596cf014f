//! BFV: the plaintext scaling constants of encryption, ciphertext addition
//! and subtraction, the choice of ciphertext multiplication method, and the
//! scheme marker.

pub mod crypto;
pub mod ops;
pub mod params;
pub mod scheme;
