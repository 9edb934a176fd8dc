[package]
name = "fs_cache"
version = "0.1.0"
edition = "2021"
publish = false

[dependencies]
globber = "*"
pcre2 = "*"
notify = "4"
tokio = { version = "1", features = ["rt", "rt-multi-thread"] }
futures = "0.3"
async-channel = "*"
