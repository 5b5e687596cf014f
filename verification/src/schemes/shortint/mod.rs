//! Single-block TFHE short integers (`message_modulus × carry_modulus`):
//! degree and noise metadata, bivariate PBS packing, and carry management.

pub mod error;
pub mod types;

pub use error::ShortintError;
pub use types::{CiphertextNoiseDegree, Degree, MaxDegree, MaxNoiseLevel, NoiseLevel};
pub mod scheme;
pub mod server_key;
