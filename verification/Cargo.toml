[package]
name = "ciff"
version = "0.1.0"
edition = "2021"
publish = false

[dependencies]
anyhow = "1"
memmap = "0.7"
protobuf = "2"
serde_json = "1"
structopt = "0.3"
tempfile = "3"
