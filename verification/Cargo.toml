[package]
name = "reckon_nifs"
version = "0.1.0"
edition = "2021"
publish = false

[dependencies]
base64 = "0.22"
ed25519-dalek = "2"
flate2 = "1"
fnv = "1"
lz4_flex = "0.11"
petgraph = "0.6"
regex = "1"
rustler = "0.36"
sha2 = "0.10"
xxhash-rust = { version = "0.8", features = ["xxh64", "xxh3"] }
zstd = "0.13"
