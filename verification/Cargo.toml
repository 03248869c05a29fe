[package]
name = "polka_repo"
version = "0.1.0"
edition = "2021"
publish = false

[dependencies]
sha2 = "=0.11.0"
atrium-crypto = "=0.1.3"
hex = "=0.4.3"
multibase = "=0.9.3"
