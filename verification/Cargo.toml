[package]
name = "demonify"
version = "0.1.0"
edition = "2021"
publish = false

[dependencies]
sysinfo = "*"
clap = { version = "*", features = ["derive"] }
colored = "*"
