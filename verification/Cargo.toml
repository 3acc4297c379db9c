[package]
name = "rustgl"
version = "0.1.0"
edition = "2021"
publish = false

[dependencies]
euclid = "0.19"
failure = "0.1"
font-kit = "0.1"
gl = "0.14"
glutin = "0.19"
nalgebra = "0.21"
proc-macro2 = "0.4"
quote = "0.6"
slog = "2"
slog-async = "2"
slog-term = "2"
syn = { version = "0.15", features = ["full"] }
