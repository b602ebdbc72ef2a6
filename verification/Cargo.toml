[package]
name = "sym_cts"
version = "0.1.0"
edition = "2021"
publish = false

[dependencies]
libloading = "0.6"
mincost = "0.1.3"
rand = "0.8"
serde = { version = "1", features = ["derive"] }
serde_yaml = "0.9"
