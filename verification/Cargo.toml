[package]
name = "katam-rando"
version = "0.1.0"
edition = "2021"
publish = false

[dependencies]
bidir-map = "*"
rand = "0.4"
csv = "1"
serde = { version = "1", features = ["derive"] }
serde_derive = "1"
