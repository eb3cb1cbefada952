[package]
name = "concat"
version = "0.1.0"
edition = "2021"
publish = false

[dependencies]
anyhow = "1"
base64 = "0.22"
clap = { version = "4", features = ["derive"] }
glob = "0.3"
globset = "0.4"
walkdir = "2"
