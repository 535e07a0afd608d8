[package]
name = "cnvcall"
version = "0.1.0"
edition = "2021"
publish = false

[dependencies]
clap = "*"
log = "*"
regex = "*"
serde = { version = "*", features = ["derive"] }
serde_json = "*"
stderrlog = "*"
threadpool = "*"
