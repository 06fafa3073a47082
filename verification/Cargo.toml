[package]
name = "phantun"
version = "0.1.0"
edition = "2021"
publish = false

[dependencies]
clap = "=4.6.7"
log = "=0.4.35"
nix = { version = "=0.29.0", features = ["net", "socket", "uio"] }
num_cpus = "=1.17.0"
pretty_env_logger = "=0.5.0"
socket2 = { version = "=0.5.10", features = ["all"] }
tokio = { version = "=1.54.1", features = ["full"] }
tokio-tun = "=0.16.0"
tokio-util = "=0.7.20"
