[package]
name = "hldup"
version = "0.1.0"
edition = "2021"
publish = false

[dependencies]
seahash = "*"
log = "*"
env_logger = "*"
walkdir = "*"
