[package]
name = "portkill"
version = "0.1.0"
edition = "2021"
publish = false

[dependencies]
anyhow = "1"
clap = { version = "4", features = ["derive"] }
libc = "0.2"
netstat2 = "0.11"
ratatui = "0.29"
