[package]
name = "btm"
version = "2.0.0"
edition = "2021"
publish = false

[dependencies]
ruc = { version = "=11.0.3", features = ["cmd", "uau"] }
nix = { version = "=0.31.3", features = ["fs"] }
serde = { version = "=1.0.229", features = ["derive"] }
serde_json = "=1.0.154"
