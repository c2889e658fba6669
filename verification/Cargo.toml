[package]
name = "dockerwall"
version = "0.1.0"
edition = "2021"
publish = false

[dependencies]
clap = { version = "*", features = ["derive"] }
hickory-proto = "*"
nix = { version = "*", features = ["net", "socket", "uio"] }
tokio = { version = "*", features = ["fs", "io-util", "macros", "net", "process", "rt-multi-thread", "sync", "time"] }
