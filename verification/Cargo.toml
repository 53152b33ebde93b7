[package]
name = "hybrid_stages"
version = "0.1.0"
edition = "2021"
publish = false

[dependencies]
clap = "=4.6.7"
env_logger = "=0.11.11"
libafl_bolts = "0.15"
nix = { version = "=0.29.0", features = ["fs"] }
rand = "=0.8.8"
z3 = "=0.12.1"
