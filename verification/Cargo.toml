[package]
name = "silent_fhe"
version = "0.1.0"
edition = "2021"
publish = false

[dependencies]
rand = "0.8"
rand_core = "0.6"
num-bigint = "0.4"
num-traits = "0.2"
thiserror = "1"
