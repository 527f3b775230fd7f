[package]
name = "mbombo"
version = "0.1.0"
edition = "2021"
publish = false

[dependencies]
regex = "1"
clap = { version = "4", features = ["derive"] }
clap_complete = "4"
anyhow = "1"
