[package]
name = "terminal_perps"
version = "0.1.0"
edition = "2021"
publish = false

[dependencies]
rust_decimal = "1"
rust_decimal_macros = "1"
chrono = "0.4"
bs58 = "0.5"
rand = "0.8"
serde = { version = "1", features = ["derive"] }
serde_json = "1"
anyhow = "1"
ratatui = "0.24"
crossterm = "0.27"
tokio = { version = "1", features = ["full"] }
