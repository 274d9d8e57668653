[package]
name = "cass_store"
version = "0.1.0"
edition = "2021"
publish = false

[dependencies]
uuid = { version = "0.8", features = ["v4"] }
fasthash = "0.4"
memmap = "0.7"
