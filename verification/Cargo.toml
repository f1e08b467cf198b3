[package]
name = "fdedup"
version = "0.1.0"
edition = "2021"
publish = false

[dependencies]
sha2 = "0.10"
hex = "0.4"
walkdir = "2"
threadpool = "1"
rayon = "1"
anyhow = "1"
clap = { version = "4", features = ["derive"] }

[dev-dependencies]
bincode = "1"
