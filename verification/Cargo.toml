[package]
name = "dockerstrator"
version = "0.1.0"
edition = "2021"
publish = false

[dependencies]
colored = "*"
crossterm = "*"
ctrlc = "*"
inquire = "*"
serde = { version = "*", features = ["derive"] }
toml = "*"
