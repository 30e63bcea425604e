[package]
name = "trace_identifier"
version = "0.1.0"
edition = "2021"
publish = false

[dependencies]
alloy-dyn-abi = "*"
alloy-json-abi = "*"
alloy-primitives = "*"
clap = { version = "*", features = ["derive"] }
eyre = "*"
