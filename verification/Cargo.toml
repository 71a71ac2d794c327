[package]
name = "connect"
version = "0.1.0"
edition = "2021"
publish = false

[dependencies]
anyhow = "*"
chrono = "*"
clap = { version = "*", features = ["derive"] }
crossterm = "*"
log = "*"
log4rs = "*"
zip_archive = "*"
zip-extract = "*"
