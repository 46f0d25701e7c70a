[package]
name = "aitch"
version = "0.1.0"
edition = "2021"
publish = false

[dependencies]
clap = { version = "4", features = ["derive"] }
fslock = "0.2"
shell-words = "1"
sysinfo = "0.29"
