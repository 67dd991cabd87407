[package]
name = "cargo_dot"
version = "0.2.0"
edition = "2021"
publish = false

[dependencies]
docopt = "1"
serde = { version = "1", features = ["derive"] }
toml = "0.8"
