[package]
name = "bgptools"
version = "0.1.0"
edition = "2021"
publish = false

[dependencies]
bgpkit-parser = "*"
clap = { version = "4", features = ["derive"] }
rayon = "1"
serde = { version = "1", features = ["derive"] }
bincode = "1"
ipnet = "2"
