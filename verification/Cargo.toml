[package]
name = "srmp"
version = "0.1.0"
edition = "2021"
publish = false

[dependencies]
bitvec = "=1.1.1"
petgraph = "=0.8.3"
ndarray = "=0.17.2"
good_lp = { version = "=1.15.3", default-features = false, features = ["microlp"] }
log = "=0.4.35"
env_logger = "=0.11.11"
