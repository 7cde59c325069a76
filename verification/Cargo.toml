[package]
name = "simplicity"
version = "0.1.0"
edition = "2021"
publish = false

[dependencies]
bitcoin_hashes = "0.11"
byteorder = "1"
miniscript = "9"
