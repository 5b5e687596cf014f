//! Verified core of the SILENT homomorphic-encryption schemes: the number
//! theory, parameter bookkeeping, noise/degree accounting and plaintext
//! polynomial arithmetic of the BFV, BGV, TFHE and shortint families.

pub mod modarith;
pub mod polymod;
pub mod schemes;
pub mod wide;
