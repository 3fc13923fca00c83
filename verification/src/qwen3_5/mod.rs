//! Qwen3.5 / Qwen3.6 text decoder: gated delta-net layers with full attention
//! in between.
pub mod agreement;
pub mod attention;
pub mod config;
pub mod contents;
pub mod delta;
pub mod ffn;
pub mod hearing;
pub mod laws;
pub mod layer;
pub mod model;
pub mod norm;
pub mod pieces;
pub mod rewind;
pub mod spans;
