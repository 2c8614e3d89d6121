[package]
name = "einkvnc"
version = "0.1.0"
edition = "2021"
publish = false

[dependencies]
flate2 = "1"
log = "0.4"
env_logger = "0.10"
anyhow = "1"
clap = "2"
