[package]
name = "rdma_sim"
version = "0.1.0"
edition = "2021"
publish = false

[dependencies]
clap = "2"
failure = "0.1"
itertools = "0.10"
json = "0.12"
lazy_static = "1"
regex = "1"
slog = "2"
slog-bunyan = "2"
slog-term = "2"
