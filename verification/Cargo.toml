[package]
name = "sss_rs"
version = "0.1.0"
edition = "2021"
publish = false

[dependencies]
num-bigint = { version = "=0.3.3", features = ["rand"] }
num-primes = "=0.3.0"
num-traits = "=0.2.19"
rand = "=0.7.3"
thiserror = "=1.0.69"
