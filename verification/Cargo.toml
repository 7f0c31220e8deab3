[package]
name = "mipp"
version = "0.1.0"
edition = "2021"
publish = false

[dependencies]
ark-ec = "0.3"
ark-ff = "0.3"
ark-poly = "0.3"
ark-poly-commit = "0.3"
ark-serialize = { version = "0.3", features = ["derive"] }
ark-sponge = "0.3"
ark-std = "0.3"
ark-bls12-377 = "0.3"
thiserror = "1.0"
