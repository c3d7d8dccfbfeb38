[package]
name = "frost_ecgfp5"
version = "0.1.0"
edition = "2021"
publish = false

[dependencies]
plonky2_ecgfp5 = "=0.1.1"
plonky2 = "=0.1.4"
plonky2_field = "=0.1.1"
rand_core = "=0.6.4"
hex = "=0.4.3"

[dev-dependencies]
rand = "=0.8.8"
