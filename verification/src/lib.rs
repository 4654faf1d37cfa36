//! Nearest-airport resolution over a fixed reference dataset.
//!
//! The dataset is an ordered sequence of [`Airport`] records; interchangeable
//! finder strategies answer "which position in that sequence is closest to a
//! query coordinate". All strategies compare coordinates through one fixed
//! projection, and all of them return positions in the loaded sequence, never
//! the records' own identifiers.
//!
//! Coordinates and projected points are carried as the bit patterns of the
//! source's 32-bit IEEE 754 values; the floating-point arithmetic itself
//! (projection and squared distances) is supplied by the caller, and what is
//! proved here is exact integer logic over those bits: the row grammar of the
//! reference file, the exact-hash finder's key table, and the brute-force
//! finder's earliest-minimum selection. A tree-based strategy is
//! floating-point work throughout — inside its spatial index as much as at
//! its edges — and therefore belongs to the caller, driven against the
//! brute-force finder here as its ground truth.

pub mod brute;
pub mod errors;
pub mod hash_finder;
pub mod loader;
pub mod record;

pub use crate::brute::DoubleLoopAirportFinder;
pub use crate::errors::AirportError;
pub use crate::hash_finder::HashAirportFinder;
pub use crate::loader::from_csv;
pub use crate::loader::RawAirport;
pub use crate::record::Airport;
pub use crate::record::ProjectedPoint;
