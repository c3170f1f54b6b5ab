[package]
name = "kb_share"
version = "0.1.0"
edition = "2021"
publish = false

[dependencies]
gtk4 = "0.5"
winapi = { version = "0.3", features = ["winuser"] }
