//! Gemma 4 text decoder.
pub mod agreement;
pub mod alike;
pub mod attention;
pub mod config;
pub mod contents;
pub mod context;
pub mod hearing;
pub mod laws;
pub mod layer;
pub mod masked;
pub mod model;
pub mod moe;
pub mod norm;
pub mod parity;
pub mod prefill;
pub mod rewind;
