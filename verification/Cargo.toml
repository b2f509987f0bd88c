[package]
name = "atlas"
version = "0.1.0"
edition = "2021"
publish = false

[dependencies]
serde = { version = "1", features = ["derive"] }
ron = "*"
chrono = { version = "0.4", default-features = false, features = ["clock", "std"] }
