[package]
name = "clouddrive"
version = "0.1.0"
edition = "2021"
publish = false

[dependencies]
lru = "=0.18.5"
tokio = { version = "1", features = ["rt", "rt-multi-thread", "net", "io-util", "sync", "macros"] }
reqwest = { version = "*", default-features = false, features = ["blocking", "multipart"] }
async-trait = "*"
bytes = "*"
