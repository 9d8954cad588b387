[package]
name = "zenith_router_core"
version = "0.1.0"
edition = "2021"
publish = false

[dependencies]
regex = "1"
walkdir = "2"
serde = { version = "1", features = ["derive"] }
