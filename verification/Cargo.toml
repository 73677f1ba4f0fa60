[package]
name = "world_core"
version = "0.1.0"
edition = "2021"
publish = false

[dependencies]
laminar = "*"
crossbeam-channel = "*"
glam = "*"
serde_json = "*"
