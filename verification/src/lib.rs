//! Decoder for GGUF model containers and a token sampler over fixed-point
//! probabilities.
//!
//! The decoder turns a byte buffer into a header, its metadata and the
//! tensor table; the sampler turns a vector of weights over a vocabulary
//! into one chosen index. Every function carries a contract stated over
//! sequences of bytes or integers.
//!
//! The container format is stated twice, as a decoder in `wire` and as an
//! encoder in `encode`, and the two are proved to undo each other.
//! `truncation` proves that a container cut short is an `Unexpected` error
//! and never a `DataError`.
//!
//! Floating-point numbers are held as their bit patterns; `binary32` gives
//! the order of such patterns. The sampler works on whole-number weights,
//! with `weights::PROB_ONE` standing for probability one, and its
//! arithmetic is exact.

pub mod binary32;
pub mod canonical;
pub mod decode;
pub mod encode;
pub mod error;
pub mod header;
pub mod keys;
pub mod kinds;
pub mod ranking;
pub mod reader;
pub mod sampler;
pub mod truncation;
pub mod value;
pub mod weights;
pub mod wire;
