[package]
name = "frinet_db"
version = "0.1.0"
edition = "2021"
publish = false

[dependencies]
fast_hilbert = "*"
hex = "*"
memchr = "*"
smallvec = "*"
hashbrown = "*"
rustc-hash = "*"
regex-syntax = "*"
itertools = "*"
serde = { version = "*", features = ["derive"] }
serde_json = "*"
clap = { version = "*", features = ["derive"] }
env_logger = "*"
indicatif = "*"
memmap2 = "*"
log = "*"
rayon = "*"
