[package]
name = "cgrun"
version = "0.1.0"
edition = "2021"
publish = false

[dependencies]
anyhow = "=1.0.104"
nix = { version = "=0.30.1", features = ["fs", "process", "signal", "user"] }
usage-rs = "=7.1.5"
