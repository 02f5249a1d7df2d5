[package]
name = "archaic-word-finder"
version = "0.1.0"
edition = "2021"
publish = false

[dependencies]
anyhow = "1"
bloomfilter = "1"
clap = { version = "4", features = ["derive"] }
indicatif = "0.17"
rayon = "1"
rust-stemmers = "1"
serde = { version = "1", features = ["derive"] }
serde_json = "1"
walkdir = "2"
