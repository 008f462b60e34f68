[package]
name = "rusty_todo"
version = "0.1.0"
edition = "2021"
publish = false

[dependencies]
anyhow = "1"
chrono = "0.4"
home = "*"
structopt = "0.3"

[dev-dependencies]
serde_json = "1"
