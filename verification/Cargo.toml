[package]
name = "rs_tip"
version = "0.1.0"
edition = "2021"
publish = false

[dependencies]
anyhow = "1"
logos = "0.12"
nohash-hasher = "0.2"
thiserror = "1"
