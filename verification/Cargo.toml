[package]
name = "dyn_multicall"
version = "0.1.0"
edition = "2021"
publish = false

[dependencies]
alloy-primitives = "*"

[dev-dependencies]
alloy-dyn-abi = "*"
alloy-json-abi = "*"
