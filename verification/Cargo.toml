[package]
name = "word_hunt"
version = "0.1.0"
edition = "2021"
publish = false

[dependencies]
trees = "*"
postgres = "*"
log = "*"
env_logger = "*"
