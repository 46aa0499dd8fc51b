[package]
name = "mrt"
version = "0.1.0"
edition = "2021"
publish = false

[dependencies]
clap = "2"
colored = "*"
rayon = "*"
serde = { version = "*", features = ["derive"] }
serde_json = "*"
