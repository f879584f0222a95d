[package]
name = "pixelpipe"
version = "0.1.0"
edition = "2021"

[dependencies]
anyhow = "*"
png = "*"
