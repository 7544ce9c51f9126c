[package]
name = "tinydb"
version = "1.0.0"
edition = "2021"
publish = false

[dependencies]
serde = "1"
bincode = "1"
