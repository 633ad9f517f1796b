[package]
name = "seagrep_index"
version = "0.1.0"
edition = "2021"
publish = false

[dependencies]
anyhow = "1"
blake3 = "1"
bytes = "1"
fst = "0.4"
getrandom = "0.3"
memmap2 = "0.9"
postcard = { version = "1", features = ["alloc"] }
rapidhash = "*"
rayon = "1"
regex = "1"
regex-syntax = "0.8"
serde = { version = "1", features = ["derive"] }
sha2 = "0.10"
tempfile = "3"
zstd = "0.13"
