[package]
name = "halo2_bigint_fib"
version = "0.1.0"
edition = "2021"
publish = false

[dependencies]
clap = { version = "=4.6.7", features = ["derive"] }
halo2_proofs = "0.3"
num-bigint = { version = "=0.4.8", features = ["rand"] }
plotters = { version = "=0.3.7", default-features = false, features = ["bitmap_backend", "bitmap_encoder"] }
rand_core = { version = "=0.6.4", features = ["getrandom"] }

[dev-dependencies]
rand = "0.8"
