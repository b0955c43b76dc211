[package]
name = "pkgs"
version = "0.1.0"
edition = "2021"
publish = false

[dependencies]
anyhow = "*"
clap = { version = "*", features = ["derive"] }
schemars = { version = "*", features = ["derive"] }
serde = { version = "*", features = ["derive"] }
serde_yaml_ng = "*"
thiserror = "*"
toml = "*"
