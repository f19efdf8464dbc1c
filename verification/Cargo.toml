[package]
name = "ledger_pending"
version = "0.1.0"
edition = "2021"
publish = false

[dependencies]
crc32c = "=0.6.9"
libc = "=0.2.191"

[dev-dependencies]
rustc-hash = "=2.1.3"
