[package]
name = "atelier_loader"
version = "0.1.0"
edition = "2021"
publish = false

[dependencies]
crossbeam-channel = "*"
dashmap = "*"
log = "*"

[dev-dependencies]
uuid = "1"
