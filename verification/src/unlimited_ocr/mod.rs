//! Unlimited-OCR: document parsing with a text decoder behind two vision
//! towers.
pub mod arrangement;
pub mod attention;
pub mod config;
pub mod contents;
pub mod moe;
pub mod grids;
pub mod pages;
pub mod reading;
pub mod text;
pub mod towers;
pub mod vision;

pub use config::UnlimitedOcrTextConfig;
pub use text::TextModel;
