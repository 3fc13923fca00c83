[package]
name = "tensor_tape"
version = "0.1.0"
edition = "2021"
publish = false

[dependencies]
anyhow = "1"
clap = { version = "4", features = ["derive"] }
cudarc = { version = "*", default-features = false, features = ["std", "driver", "dynamic-loading", "cuda-12060"] }
hf-hub = { version = "*", default-features = false, features = ["ureq"] }
image = { version = "0.25", default-features = false, features = ["jpeg", "png"] }
serde = { version = "1", features = ["derive"] }
serde_json = "1"
tokenizers = { version = "*", default-features = false, features = ["fancy-regex"] }
