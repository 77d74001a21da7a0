[package]
name = "rsconstruct"
version = "0.1.0"
edition = "2021"
publish = false

[dependencies]
anyhow = "=1.0.104"
glob = "=0.3.4"
globset = "0.4"
hex = "=0.4.3"
humansize = "2"
regex = "=1.13.1"
serde = { version = "=1.0.229", features = ["derive"] }
serde_json = "=1.0.154"
sha2 = "=0.10.9"
toml = "=1.1.8"
toml_edit = "*"
