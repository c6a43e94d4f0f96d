[package]
name = "contract"
version = "0.1.0"
edition = "2021"
publish = false

[dependencies]
bs58 = "0.4"
near-sdk = { version = "4.1", default-features = false }
near-contract-standards = { version = "4.1", default-features = false }
