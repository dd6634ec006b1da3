[package]
name = "cbor-diag"
version = "0.1.0"
edition = "2021"
publish = false

[dependencies]
anyhow = "=1.0.104"
base64 = "=0.13.1"
half = "=1.8.3"
hex = "=0.4.3"
paw = "=1.0.0"
structopt = { version = "=0.3.26", features = ["paw"] }
strum = { version = "=0.24.1", features = ["derive"] }
stylish = { version = "=0.1.0", features = ["ansi", "plain"] }
