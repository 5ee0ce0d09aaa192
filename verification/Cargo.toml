[package]
name = "mateyship"
version = "0.1.0"
edition = "2021"
publish = false

[dependencies]
async-trait = "0.1"
bitvec = "=1.0.1"
bytes = "1"
env_logger = "0.9"
indicatif = "0.17"
log = "0.4"
percent-encoding = "=2.3.2"
pin-project-lite = "0.2"
rand = "=0.8.8"
reqwest = { version = "=0.11.27", default-features = false, features = ["rustls-tls"] }
sha1 = "=0.10.7"
snafu = "0.6"
tokio = { version = "1", features = ["full"] }
