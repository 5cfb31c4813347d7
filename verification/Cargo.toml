[package]
name = "stat_rank"
version = "0.1.0"
edition = "2021"
publish = false

[dependencies]
json = "0.12"
clap = { version = "3", features = ["derive"] }
