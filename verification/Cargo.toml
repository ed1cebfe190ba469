[package]
name = "level_cache"
version = "0.1.0"
edition = "2021"
publish = false

[dependencies]
anyhow = "1"
log = "0.4"
memmap = "0.7"
positioned-io = "*"
rayon = "1"
rust-s3 = { version = "*", default-features = false, features = ["tokio-rustls-tls"] }
tempfile = "3"
tokio = { version = "1", features = ["rt-multi-thread"] }
typenum = "1"
