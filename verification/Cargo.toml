[package]
name = "flashmap"
version = "0.1.0"
edition = "2021"
publish = false

[dependencies]
bitflags = "2"
camino = "1"
clap = { version = "4", features = ["derive"] }
clap_complete = "4"
env_logger = "0.11"
itertools = "0.13"
log = "0.4"
tempfile = "3"
thiserror = "1"
