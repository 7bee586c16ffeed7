//! Dynamic Markov Compression: an adaptive bit-level Markov predictor driving
//! a binary arithmetic coder over a 24-bit window.

pub mod codec;
pub mod coder;
pub mod graph;
pub mod grid;
pub mod round_trip;

pub use codec::{compress, decompress, DecodeError, DEFAULT_BUDGET};
