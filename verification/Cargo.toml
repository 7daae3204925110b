[package]
name = "simplefs"
version = "0.1.0"
edition = "2021"

[dependencies]
bitvec = "0.17.4"
spin = "0.5.2"
log = "0.4"
sgx_types = "1.1"
sgx_tstd = "1.1"
sgx_tprotected_fs = "1.1"
