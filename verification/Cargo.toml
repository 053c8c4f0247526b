[package]
name = "consensus_encoding"
version = "0.1.0"
edition = "2021"
publish = false

[dependencies]
arbitrary = "1"
