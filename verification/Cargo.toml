[package]
name = "deptool"
version = "0.1.0"
edition = "2021"
publish = false

[dependencies]
argparse = "0.2"
cargo_toml = "*"
