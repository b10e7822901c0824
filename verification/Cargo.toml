[package]
name = "wordle_star"
version = "0.1.0"
edition = "2021"
publish = false

[dependencies]
cursive = { version = "*", default-features = false, features = ["crossterm-backend", "toml"] }
cursive_core = "*"
