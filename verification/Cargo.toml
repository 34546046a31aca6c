[package]
name = "dottools"
version = "0.1.0"
edition = "2021"
publish = false

[dependencies]
petgraph = { version = "0.6", default-features = false, features = ["graphmap"] }
unicode-normalization = "0.1"

[dev-dependencies]
base64 = "0.13"
