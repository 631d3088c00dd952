[package]
name = "tea_time"
version = "0.1.0"
edition = "2021"
publish = false

[dependencies]
chrono = "0.4"
crossterm = "*"
directories = "*"
num-bigint = "0.4"
num-rational = "0.4"
num-traits = "0.2"
serde = { version = "1", features = ["derive"] }
toml = "*"
