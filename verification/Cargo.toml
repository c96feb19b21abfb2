[package]
name = "ws_framer"
version = "0.1.0"
edition = "2021"
publish = false

[dependencies]
httparse = "*"
getrandom = "*"
anyhow = "*"
clap = { version = "*", features = ["derive"] }
