[package]
name = "m1_workspace"
version = "0.10.0"
edition = "2021"
publish = false

[dependencies]
serde = { version = "1", features = ["derive"] }
serde_ignored = "*"
toml = "*"
