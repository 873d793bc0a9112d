[package]
name = "rescue_transcript"
version = "0.1.0"
edition = "2021"
publish = false

[dependencies]
ark-ff = "0.4"
ark-bls12-377 = "0.4"
ark-bn254 = "0.4"
ark-bls12-381 = "0.4"
ark-ed-on-bn254 = "0.4"
ark-ed-on-bls12-377 = "0.4"
ark-ed-on-bls12-381 = "0.4"
sha2 = "0.10"

[dev-dependencies]
ark-std = "0.4"
