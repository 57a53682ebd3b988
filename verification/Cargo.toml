[package]
name = "pxp-rs"
version = "0.1.0"
edition = "2021"
publish = false

[dependencies]
cfg-if = "*"
log = "*"
sgx_alloc = "*"
sgx_trts = "*"
sgx_types = "*"
spin = "*"
