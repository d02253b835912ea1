[package]
name = "microstation"
version = "0.1.0"
edition = "2021"
publish = false

[dependencies]
bitvec = "=1.1.1"
shlex = "=1.3.0"
clap = { version = "=4.6.7", features = ["derive"] }
serde = { version = "=1.0.229", features = ["derive"] }
serde_json = "=1.0.154"
bevy = { version = "0.19", default-features = false }
