[package]
name = "snarkcore"
version = "0.1.0"
edition = "2021"
publish = false

[dependencies]
snarkvm-fields = "*"
snarkvm-curves = "*"
snarkvm-utilities = "*"

[dev-dependencies]
rand = "*"
