[package]
name = "zokrates"
version = "0.1.0"
edition = "2021"
publish = false

[dependencies]
regex = "1"
hex = "0.4"
serde = { version = "1", features = ["derive"] }
serde_json = "1"
clap = "2.34"
reqwest = { version = "0.11", default-features = false, features = ["blocking"] }
