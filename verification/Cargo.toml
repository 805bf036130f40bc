[package]
name = "cernan"
version = "0.1.0"
edition = "2021"
publish = false

[dependencies]
bincode = "1"
chrono = { version = "0.4", default-features = false, features = ["now"] }
protobuf = "2"
serde = { version = "1", features = ["derive"] }
