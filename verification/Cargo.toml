[package]
name = "ardain"
version = "0.1.0"
edition = "2021"
publish = false

[dependencies]
xc3_lib = "*"
anyhow = "*"
thiserror = "*"
clap = { version = "*", features = ["derive"] }
