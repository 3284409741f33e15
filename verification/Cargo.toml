[package]
name = "pathit"
version = "0.1.0"
edition = "2021"
publish = false

[dependencies]
anyhow = "1"
base16 = "0.2"
chrono = "0.4"
clap = { version = "4", features = ["derive"] }
ring = "0.17"
