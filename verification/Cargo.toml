[package]
name = "nuke"
version = "0.1.0"
edition = "2021"
publish = false

[dependencies]
num_cpus = "1"
clap = { version = "4", features = ["derive"] }
which = "*"
indoc = "2"
