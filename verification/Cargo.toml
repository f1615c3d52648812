[package]
name = "neat"
version = "0.1.0"
edition = "2021"
publish = false

[dependencies]
indexmap = "*"
rand = "*"
rayon = "*"
serde = { version = "*", features = ["derive"] }
