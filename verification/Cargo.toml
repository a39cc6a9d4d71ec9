[package]
name = "dir_inventory"
version = "0.1.0"
edition = "2021"
publish = false

[dependencies]
nfd = "0.0.4"
serde = { version = "1", features = ["derive"] }
serde_json = "1"
thiserror = "1"
