[package]
name = "concurrency_fuzz_scheduler"
version = "0.1.0"
edition = "2021"
publish = false

[dependencies]
anyhow = "1"
clap = { version = "4", features = ["derive"] }
libbpf-rs = "*"
plain = "0.2"
scx_utils = "*"
