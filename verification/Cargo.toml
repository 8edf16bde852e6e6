[package]
name = "lightning_core"
version = "0.1.0"
edition = "2021"
publish = false

[dependencies]
lru = "=0.12.5"
multiaddr = { version = "0.18", default-features = false }
scc = "=2.4.0"
