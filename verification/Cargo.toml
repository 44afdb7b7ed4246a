[package]
name = "snaptest"
version = "0.1.0"
edition = "2021"
publish = false

[dependencies]
clap = { version = "*", features = ["derive"] }
clap-verbosity-flag = "*"
env_logger = "*"
glob = "*"
log = "*"
rayon = "*"
rayon-progress = "*"
wait-timeout = "*"
