pub mod bfv;
pub mod bgv;
pub mod shortint;
pub mod tfhe;
pub mod text;
