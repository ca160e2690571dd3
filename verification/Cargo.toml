[package]
name = "cargo-depcheck"
version = "0.1.0"
edition = "2021"
publish = false

[dependencies]
indexmap = "2"
cargo-lock = "*"
clap = { version = "4", features = ["derive"] }
clap-cargo = "*"
anstream = "*"
anstyle = "1"
