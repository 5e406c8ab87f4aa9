[package]
name = "avif_decoder"
version = "0.1.0"
edition = "2021"
publish = false

[dependencies]
bin-rs = "*"
