[package]
name = "kvs"
version = "0.1.0"
edition = "2021"
publish = false

[dependencies]
serde = "1"
serde_json = "1"
clap = "2"
crossbeam = "0.8"
rayon = "1"
env_logger = "0.7"
log = "0.4"
failure = "0.1"
