[package]
name = "evm_core"
version = "0.1.0"
edition = "2021"
publish = false

[dependencies]
serde = "*"
uint = "*"
fixed-hash = "*"
impl-rlp = "*"
cw-storage-plus = "*"
