[package]
name = "rate_my_sudoku"
version = "0.1.0"
edition = "2021"
publish = false

[dependencies]
zstd = "=0.13.4"
serde_json = "=1.0.154"
clap = { version = "=4.6.7", features = ["derive"] }
rand = "0.9"
