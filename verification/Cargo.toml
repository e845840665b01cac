[package]
name = "nimiq-staking"
version = "0.1.0"
edition = "2021"
publish = false

[dependencies]
beserial = "=0.2.0"
bls12_381 = "=0.9.0"
nimiq-hash = "=2.3.0"
nimiq-keys = "=2.3.0"
nimiq-serde = "=2.3.0"
nimiq-transaction = "=2.3.0"
nimiq-utils = { version = "=2.3.0", features = ["merkle"] }

[dev-dependencies]
hex = "=0.4.3"
