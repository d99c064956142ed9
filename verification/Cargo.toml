[package]
name = "fusion_core"
version = "0.1.0"
edition = "2021"
publish = false

[dependencies]
rustc-hash = "*"
luminal_cudarc = "=0.10.0"
rand = "=0.8.8"
