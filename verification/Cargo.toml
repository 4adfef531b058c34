[package]
name = "fast_wordpiece"
version = "0.1.0"
edition = "2021"
publish = false

[dependencies]
serde_json = "1"
tokenizers = { version = "0.21", default-features = false, features = ["fancy-regex"] }
unicode_categories = "0.1"
unicode-normalization = "0.1"
