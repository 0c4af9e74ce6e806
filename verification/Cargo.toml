[package]
name = "birdseye"
version = "0.1.0"
edition = "2021"
publish = false

[dependencies]
bytesize = "*"
dirs = "*"
diskspace_insight = "*"
env_logger = "*"
log = "*"
