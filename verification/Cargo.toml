[package]
name = "lanscan"
version = "0.1.0"
edition = "2021"
publish = false

[dependencies]
anyhow = "1"
clap = { version = "4", features = ["derive"] }
dns-lookup = "2"
ipnetwork = "0.20"
pnet = "0.35"
