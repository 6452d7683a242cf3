[package]
name = "glyphvis"
version = "0.3.4"
edition = "2021"
publish = false

[dependencies]
regex = "1"
rand = "0.8"
serde = { version = "1", features = ["derive"] }
serde_json = "1"
toml = "0.8"
nannou_osc = "0.19"
