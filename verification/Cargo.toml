[package]
name = "hyperplonk_evm"
version = "0.1.0"
edition = "2021"
publish = false

[dependencies]
p3-keccak = "0.4.3"
p3-symmetric = "0.4.3"
p3-field = "0.4.3"
p3-koala-bear = "0.4.3"
p3-util = "0.4.3"
p3-matrix = "0.4.3"
itertools = "0.14.0"
