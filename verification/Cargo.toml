[package]
name = "rating_indexer"
version = "0.1.0"
edition = "2021"
publish = false

[dev-dependencies]
ulid = "*"
