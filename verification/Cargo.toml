[package]
name = "low_degree_test"
version = "0.1.0"
edition = "2021"
publish = false

[dependencies]
blake3 = "1"
