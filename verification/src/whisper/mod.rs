//! Whisper: an audio encoder and a text decoder that attends to it.
pub mod agreement;
pub mod attention;
pub mod block;
pub mod config;
pub mod contents;
pub mod laws;
pub mod model;
pub mod rewind;

pub use config::Config;
pub use model::{AudioEncoder, TextDecoder, Whisper, WhisperStaticCtx};
