[package]
name = "muxxy"
version = "0.5.0"
edition = "2021"
publish = false

[dependencies]
clap = { version = "4", features = ["derive"] }
regex = "1"
serde = { version = "1", features = ["derive"] }
serde_json = "1"
tmux_interface = "*"

[dev-dependencies]
serde_yaml = "0.9"
