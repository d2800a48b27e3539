[package]
name = "sat_indexer"
version = "0.1.0"
edition = "2021"
publish = false

[dependencies]
bitcoin = "0.30"
bitcoincore-rpc = "0.17"
clap = { version = "4", features = ["cargo"] }
rusqlite = { version = "0.29", features = ["bundled"] }
