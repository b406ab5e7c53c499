[package]
name = "ark-plonk"
version = "0.1.0"
edition = "2021"
publish = false

[dependencies]
ark-ff = "0.3"
ark-ec = "0.3"
ark-poly = "0.3"
ark-poly-commit = "0.3"
ark-serialize = "0.3"
ark-bls12-381 = "0.3"
ark-ed-on-bls12-381 = "0.3"
merlin = "3"
hashbrown = "0.11"
rand_core = { version = "0.6", features = ["getrandom"] }
num-traits = "0.2"
itertools = "0.10"
derivative = { version = "2", features = ["use_core"] }
