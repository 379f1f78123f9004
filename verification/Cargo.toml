[package]
name = "jp_holidays"
version = "0.1.0"
edition = "2021"
publish = false

[dependencies]
encoding_rs = "*"
serde = { version = "*", features = ["derive"] }
serde_json = "*"
thiserror = "*"
tokio = { version = "*", features = ["rt", "rt-multi-thread", "macros"] }
reqwest = { version = "*", default-features = false }
bytes = "*"
async-trait = "*"
