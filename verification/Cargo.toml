[package]
name = "simd_minimizers"
version = "0.1.0"
edition = "2021"
publish = false

[dependencies]
wide = "*"
packed-seq = "*"
itertools = "*"
typetag = "*"
serde = { version = "*", features = ["derive"] }

[dev-dependencies]
rand = "*"
