[package]
name = "rustchainlib"
version = "0.1.0"
edition = "2021"

[dependencies]
crypto-hash = "*"
hex = "*"
