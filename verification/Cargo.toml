[package]
name = "edit_days"
version = "0.1.0"
edition = "2021"
publish = false

[dependencies]
anyhow = "1"
chrono = "0.4"
clap = { version = "4", features = ["derive"] }
csv = "1"
indicatif = "0.17"
osmio = "*"
rayon = "1"
