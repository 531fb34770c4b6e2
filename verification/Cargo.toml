[package]
name = "aceai_dp_cli"
version = "0.1.0"
edition = "2021"
publish = false

[dependencies]
clap = "4"
indicatif = "*"
log = "0.4"
log4rs = "1"
reqwest = { version = "0.12", default-features = false, features = ["blocking", "json"] }
serde = { version = "1", features = ["derive"] }
serde_json = "1"
serde_yaml = "0.9"
ssh-rs = "*"
