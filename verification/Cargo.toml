[package]
name = "app_registry"
version = "0.1.0"
edition = "2021"
publish = false

[dependencies]
anyhow = "=1.0.104"
chrono = { version = "=0.4.45", default-features = false, features = ["clock"] }
fs_extra = "=1.3.0"
winsafe = { version = "=0.0.20", features = ["kernel"] }
