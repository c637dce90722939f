[package]
name = "ipfs_bitswap"
version = "0.1.0"
edition = "2021"
publish = false

[dependencies]
async-std = "=1.13.2"
async-trait = "=0.1.92"
futures = "=0.3.34"
libipld = { version = "=0.12.0", default-features = false, features = ["dag-json"] }
libp2p = { version = "=0.56.0", default-features = false, features = ["floodsub", "identify", "kad", "macros", "mdns", "ping", "tokio"] }
libp2p-core = "=0.43.2"
