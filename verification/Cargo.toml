[package]
name = "sloccrunch"
version = "0.1.0"
edition = "2021"
publish = false

[dependencies]
clap = { version = "=4.6.7", features = ["derive"] }
file_type = "=0.8.11"
ignore = "=0.4.34"
linguist = "=0.1.17"
linguist-types = "=0.1.3"
