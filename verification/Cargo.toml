[package]
name = "topazdb"
version = "0.1.0"
edition = "2021"
publish = false

[dependencies]
anyhow = "1"
bytes = "1"
crc32fast = "1"
crossbeam-channel = "0.5"
crossbeam-skiplist = "0.1"
libc = "0.2"
log = "0.4"
lz4 = "1"
moka = { version = "0.12", features = ["sync"] }
parking_lot = "0.12"
snap = "1"
xxhash-rust = { version = "0.8", features = ["xxh3"] }
