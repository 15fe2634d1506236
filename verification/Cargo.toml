[package]
name = "comment_chunks"
version = "0.1.0"
edition = "2021"
publish = false

[dependencies]
ra_ap_syntax = "=0.0.310"
indexmap = "=2.14.2"
serde = { version = "=1.0.229", features = ["derive"] }
directories = "=6.0.0"
