[package]
name = "satsval"
version = "0.1.0"
edition = "2021"
publish = false

[dependencies]
serde_json = "*"
axum = "*"
maud = "*"
tokio = { version = "*", features = ["rt-multi-thread", "macros", "net", "sync", "time"] }
reqwest = { version = "*", default-features = false, features = ["json"] }
