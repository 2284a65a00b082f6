[package]
name = "phirarec"
version = "0.1.0"
edition = "2021"
publish = false

[dependencies]
anyhow = "1"
flate2 = "1"
ruzstd = "*"
serde = { version = "1", features = ["derive"] }
