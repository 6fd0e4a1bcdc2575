[package]
name = "books_export"
version = "0.1.0"
edition = "2021"
publish = false

[dependencies]
anyhow = "*"
clap = { version = "*", features = ["derive"] }
dirs = "*"
indicatif = "*"
plist = "*"
thiserror = "*"
