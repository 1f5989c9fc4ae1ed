[package]
name = "trawl"
version = "0.1.0"
edition = "2021"
publish = false

[dependencies]
walkdir = "=2.5.0"
structopt = "=0.3.26"
env_logger = { version = "=0.11.11", default-features = false }
log = "=0.4.34"
syn = { version = "=3.0.6", features = ["full", "visit"] }
