[package]
name = "arctic"
version = "0.1.10"
edition = "2021"
publish = false

[dependencies]
base64 = "=0.23.1"
crossbeam-epoch = "=0.9.21"
fearless_simd = { version = "=1.2.0", features = ["force_support_fallback"] }
hdrhistogram = "=7.6.0"
ps-reclaim = "=0.1.5"
rand = "=0.10.3"
ribbit = "=0.2.1"
seize = "=0.5.1"
serde = { version = "=1.0.229", features = ["derive"] }
spin = "=0.12.3"
