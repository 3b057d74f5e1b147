[package]
name = "ddc"
version = "0.1.0"
edition = "2021"
publish = false

[dependencies]
anyhow = "1"
clap = { version = "4", features = ["derive"] }
directories = "*"
poppler = "*"
walkdir = "2"
yaml-rust = "0.4"
