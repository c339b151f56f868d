[package]
name = "chessview"
version = "0.1.0"
edition = "2021"
publish = false

[dependencies]
tudi = "*"
thiserror = "*"
miette = { version = "*", features = ["fancy"] }
ratatui = "*"
dirs = "*"
