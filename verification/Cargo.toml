[package]
name = "log_viewer"
version = "0.1.0"
edition = "2021"
publish = false

[dependencies]
anyhow = "1"
chrono = "0.4"
memmap2 = "0.9"
rayon = "1"
regex = "1"
serde_json = "1"
walkdir = "2"
