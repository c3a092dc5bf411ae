[package]
name = "sp1_gpu_plonk"
version = "0.1.0"
edition = "2021"
publish = false

[dependencies]
anyhow = "1"
hex = "0.4"
rand = "0.8"
rayon = "1"
sha2 = "0.10"
tracing = "0.1"

[dev-dependencies]
num-bigint = "0.4"
