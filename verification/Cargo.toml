[package]
name = "splatforge"
version = "0.1.0"
edition = "2021"
publish = false

[dependencies]
blake3 = "1"
flate2 = "1"
crc32fast = "1"
serde = { version = "1", features = ["derive"] }
serde_json = "1"
thiserror = "1"
byteorder = "1"
anyhow = "1"
clap = { version = "4", features = ["derive"] }
memmap2 = "0.9"
rayon = "1"
constriction = "0.4"
probability = "0.20"
chrono = "0.4"
dirs = "5"
