[package]
name = "kassantra"
version = "0.1.0"
edition = "2021"
publish = false

[dependencies]
priority-queue = "*"
tokio = { version = "*", features = ["full"] }
rand = "*"
uuid = { version = "*", features = ["v4"] }
