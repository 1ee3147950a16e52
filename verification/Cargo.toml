[package]
name = "email-cli"
version = "0.1.0"
edition = "2021"
publish = false

[dependencies]
mail-parser = "=0.11.9"
sha2 = "=0.10.9"
hex = "=0.4.3"
serde = { version = "=1.0.229", features = ["derive"] }
serde_json = "=1.0.154"
clap = { version = "=4.6.7", features = ["derive"] }
anyhow = "=1.0.104"
