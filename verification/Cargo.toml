[package]
name = "hoptrace"
version = "0.1.0"
edition = "2021"
publish = false

[dependencies]
rstar = "*"
anyhow = "*"
csv = "*"
serde = { version = "*", features = ["derive"] }
tiff = "*"

[dev-dependencies]
rand = "0.9"
