[package]
name = "replicon"
version = "0.1.0"
edition = "2021"
publish = false

[dependencies]
ordered-multimap = "*"
bincode = "1"
serde = { version = "1", features = ["derive"] }

[dev-dependencies]
integer-encoding = "*"
