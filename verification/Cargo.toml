[package]
name = "rq_math"
version = "0.1.0"
edition = "2021"
publish = false

[dependencies]
ndarray = "=0.15.6"
num-bigint = "=0.4.8"
num-bigint-dig = { version = "=0.8.6", features = ["prime"] }
protobuf = "=3.7.2"
rand = "=0.8.8"
rand_chacha = "=0.3.1"
zeroize = "=1.9.1"

[dev-dependencies]
num-traits = "=0.2.19"
