[package]
name = "commit_poker"
version = "0.1.0"
edition = "2021"
publish = false

[dependencies]
num-bigint = "*"
num-integer = "*"
num-traits = "*"
git2 = { version = "*", default-features = false }
clap = { version = "*", features = ["derive"] }
chrono = "*"
colored = "*"
rand = "*"
directories = "*"
fs4 = "*"
serde = { version = "*", features = ["derive"] }
serde_json = "*"
