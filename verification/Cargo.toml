[package]
name = "mick"
version = "0.1.0"
edition = "2021"
publish = false

[dependencies]
clap = { version = "4", features = ["derive"] }
crossterm = "0.26"
rand = "0.8"
num_cpus = "1"
threadpool = "1"
