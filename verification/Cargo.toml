[package]
name = "warkov"
version = "0.2.0"
edition = "2021"
publish = false

[dependencies]
rand = "0.5"
clap = { version = "3", features = ["derive"] }
anyhow = "1"
