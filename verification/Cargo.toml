[package]
name = "wnaf_mul"
version = "0.1.0"
edition = "2021"
publish = false

[dependencies]
ark-ec = "0.5"
ark-ed-on-bls12-381-bandersnatch = "0.5"
ark-ff = "0.5"
ark-std = "0.5"
