[package]
name = "collatz_engine"
version = "0.1.0"
edition = "2021"
publish = false

[dependencies]
dashmap = "*"
rusty_pool = "*"
twox-hash = "1"
num_cpus = "*"
jemallocator = "*"
smallvec = "1"
