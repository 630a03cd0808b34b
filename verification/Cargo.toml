[package]
name = "doc_formatter"
version = "0.1.0"
edition = "2021"
publish = false

[dependencies]
ropey = { version = "1.6", default-features = false, features = ["simd"] }
unicode-segmentation = "1.12"
unicode-width = "=0.1.12"
