[package]
name = "ch32rv"
version = "0.1.0"
edition = "2021"
publish = false

[dependencies]
serde = { version = "1", features = ["derive"] }
serde_json = "1"
fs4 = "*"
clap = { version = "4", features = ["derive"] }
gdbstub = "0.7"
thiserror = "2"
