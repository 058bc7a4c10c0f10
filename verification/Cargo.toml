[package]
name = "luabundle"
version = "0.1.0"
edition = "2021"
publish = false

[dependencies]
anyhow = "*"
clap = { version = "*", features = ["derive"] }
clearscreen = "*"
color-print = "*"
darklua = "*"
dialoguer = "*"
serde = { version = "*", features = ["derive"] }
serde_json = "*"
stacker = "*"
