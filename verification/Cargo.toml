[package]
name = "grairc"
version = "0.1.0"
edition = "2021"
publish = false

[dependencies]
anyhow = "1"
embedded-graphics = "0.8"
serde = { version = "1", features = ["derive"] }
time = "0.3"
tinytga = "0.5"
toml = "0.9"

[dev-dependencies]
regex = "1"
