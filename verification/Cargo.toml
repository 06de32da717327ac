[package]
name = "frontrunner"
version = "0.1.0"
edition = "2021"
publish = false

[dependencies]
clap = { version = "4", features = ["derive"] }
comfy-table = "*"
log = "0.4"
odbc = "0.17"
serialport = { version = "4", default-features = false }
simplelog = "*"
