[package]
name = "dh_chat"
version = "0.1.0"
edition = "2021"
publish = false

[dependencies]
rand = "0.8"
rand_chacha = "0.3"
sha2 = "0.10"
tokio = { version = "1", features = ["rt-multi-thread", "macros", "sync"] }
crossterm = { version = "0.27", features = ["event-stream"] }
futures = "0.3"
