[package]
name = "twirer"
version = "0.1.0"
edition = "2021"
publish = false

[dependencies]
octocrab = "=0.43.0"
tokio = { version = "*", features = ["rt-multi-thread", "macros"] }
