[package]
name = "ereea"
version = "0.1.0"
edition = "2021"
publish = false

[dependencies]
rand = "0.8"
noise = "0.8"
ratatui = "0.29"
crossterm = "0.28"
log = "0.4"
env_logger = "0.11"
