[package]
name = "turing_tapes"
version = "0.1.0"
edition = "2021"
publish = false

[dependencies]
clap = { version = "4.5", features = ["derive"] }
regex = "1.11"
turing-machine-rs = "*"
