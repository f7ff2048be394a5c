[package]
name = "boom_you_up_r"
version = "0.1.0"
edition = "2021"
publish = false

[dependencies]
chrono = "*"
clap = { version = "*", features = ["derive"] }
notify-rust = "*"
opener = "*"
rodio = "*"
serde = { version = "*", features = ["derive"] }
serde_yaml = "*"
soloud = "*"
