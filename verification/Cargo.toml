[package]
name = "bnclip"
version = "0.1.0"
edition = "2021"
publish = false

[dependencies]
blake3 = "*"
bytesize = { version = "*", features = ["serde"] }
clap = { version = "*", features = ["derive"] }
hex = "*"
infer = "*"
percent-encoding = "*"
redb = "*"
redb-derive = "*"
regex = "*"
serde = { version = "*", features = ["derive"] }
toml = "*"
