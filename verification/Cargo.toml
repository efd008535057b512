[package]
name = "csv_resync"
version = "0.1.0"
edition = "2021"
publish = false

[dependencies]
csv = "1"
clap = { version = "4", features = ["derive"] }
rand = "0.9"
rayon = "1"
