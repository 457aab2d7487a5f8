[package]
name = "crypto_core"
version = "0.1.0"
edition = "2021"
publish = false

[dependencies]
ibig = "0.3"
rand = "0.8"
sha1_smol = "1"
