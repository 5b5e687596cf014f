//! TFHE: scalar plaintexts and their encoding scale, the shape checks of the
//! linear evaluator, the layout of programmable-bootstrapping lookup tables,
//! and key / mask / noise sampling.

pub mod bootstrap;
pub mod encoding;
pub mod ops;
pub mod params;
pub mod sampling;
pub mod scheme;
