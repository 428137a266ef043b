[package]
name = "cherry_harvest"
version = "0.1.0"
edition = "2021"
publish = false

[dependencies]
bit-vec = "=0.6.3"
rand = "=0.8.8"
git2 = { version = "=0.18.3", default-features = false }
octocrab = "=0.38.0"
tokio = { version = "=1.54.1", features = ["full"] }
serde = { version = "=1.0.229", features = ["derive"] }
serde_yaml = "=0.9.34"
chrono = "=0.4.45"
log = "=0.4.35"
env_logger = "=0.10.2"
temp-dir = "=0.1.16"
fallible-iterator = "=0.3.0"
async-trait = "=0.1.92"
http = "=1.5.0"
threadpool = "=1.8.1"
num-traits = "=0.2.19"
hnsw_rs = "=0.3.5"
hora = "=0.1.1"
