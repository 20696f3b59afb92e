[package]
name = "kasane_logic"
version = "0.1.0"
edition = "2021"
publish = false

[dependencies]
chrono = "0.4"
itertools = "*"
rayon = "1"
schemars = "*"
serde = { version = "1", features = ["derive"] }
