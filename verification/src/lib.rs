//! A symbol-ranking byte-stream compressor: an adaptive bit predictor, a
//! 64-bit range coder and a hashed byte-history model, with the encoder that
//! ties them together, and a model of the decoder with the proof of what it
//! reads back.

pub mod bits;
pub mod coder;
pub mod decoding;
pub mod multiplier;
pub mod predictor;
pub mod primary_context;
pub mod stream;
