[package]
name = "hanconv"
version = "0.1.0"
edition = "2021"
publish = false

[dependencies]
ahash = "0.8"
clap = { version = "4", features = ["derive"] }
encoding_rs = "0.8"
rayon = "1"
