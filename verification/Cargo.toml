[package]
name = "node_cleaner"
version = "0.1.0"
edition = "2021"
publish = false

[dependencies]
chrono = "*"
clap = { version = "*", features = ["derive"] }
clap-verbosity-flag = "*"
color-eyre = "*"
crossterm = "*"
dialoguer = "*"
env_logger = "*"
indicatif = "*"
indicatif-log-bridge = "*"
jwalk = "*"
log = "*"
once_cell = "*"
ratatui = "*"
serde = { version = "*", features = ["derive"] }
serde_json = "*"
simple_config_parser = "*"
spinners = "*"
walkdir = "*"
