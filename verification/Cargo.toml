[package]
name = "bpe_core"
version = "0.1.0"
edition = "2021"
publish = false

[dependencies]
fancy-regex = "*"
memchr = "2"
memmap2 = "*"
rustc-hash = "*"
thiserror = "*"

[dev-dependencies]
tempfile = "3"
