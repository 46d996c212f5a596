[package]
name = "ancheck"
version = "0.1.0"
edition = "2021"
publish = false

[dependencies]
rusqlite = { version = "*", features = ["bundled"] }
walkdir = "*"
fuzzy-matcher = "*"
chrono = { version = "*", default-features = false, features = ["clock"] }
dirs = "*"
