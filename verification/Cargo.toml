[package]
name = "zip_huff"
version = "0.1.0"
edition = "2021"
publish = false

[dependencies]
bit-vec = { version = "0.6", features = ["serde"] }
rmp-serde = "1"
serde = { version = "1", features = ["derive"] }
rayon = "1"
clap = { version = "4", default-features = false, features = ["std", "derive", "help", "usage", "error-context"] }
