[package]
name = "llamma_math"
version = "0.1.0"
edition = "2021"
publish = false

[dependencies]
alloy-primitives = { version = "1", default-features = false, features = ["std"] }
serde = { version = "1", features = ["derive"] }
