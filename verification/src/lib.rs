//! Decoder models written as recorders of tensor programs.
//!
//! Every model here decides *which* tensor work is to be done, on which
//! weights and on which persistent buffers, and records it on a [`tape::Tape`].
//! An executor then carries the recorded program out on a device. What is
//! recorded is stated in the contracts as a formula over the recorded values.

pub mod contents;
pub mod dtype;
pub mod error;
pub mod extents;
pub mod fused;
pub mod gathering;
pub mod gemma4;
pub mod generation;
pub mod graph;
pub mod interpolation;
pub mod kv_cache;
pub mod layer_norm;
pub mod loader;
pub mod masks;
pub mod mixture;
pub mod naming;
pub mod options;
pub mod positions;
pub mod qcache;
pub mod quant;
pub mod qwen3_5;
pub mod routing;
pub mod rows;
pub mod serving;
pub mod shape;
pub mod static_decode;
pub mod stream;
pub mod tape;
pub mod unlimited_ocr;
pub mod whisper;
