[package]
name = "cidrwall"
version = "0.1.3"
edition = "2021"
publish = false

[dependencies]
anyhow = "1"
aya = "=0.14.0"
aya-build = "=0.2.0"
aya-ebpf = "=0.2.1"
clap = { version = "4", features = ["derive", "env"] }
env_logger = "*"
ipnet = "=2.12.2"
log = "0.4"
mnl = "=0.3.1"
nftnl = "=0.9.4"
notify = "=8.2.1"
serde = { version = "1", features = ["derive"] }
serde_json = "1"
signal-hook = "*"
thiserror = "*"
toml = "*"
