[package]
name = "muntjac"
version = "0.2.0"
edition = "2021"
publish = false

[dependencies]
anyhow = "=1.0.104"
clap = { version = "=4.6.7", features = ["derive"] }
dirs = "=5.0.1"
filetime = "=0.2.29"
flate2 = "=1.1.10"
glob = "=0.3.4"
hex = "=0.4.3"
pathdiff = "=0.2.3"
pep440_rs = "=0.7.3"
pep508_rs = "=0.9.2"
reqwest = { version = "=0.12.28", default-features = false, features = ["blocking", "rustls-tls"] }
serde = { version = "=1.0.229", features = ["derive"] }
serde_json = "=1.0.154"
sha2 = "=0.10.9"
tar = "=0.4.46"
thiserror = "=2.0.21"
toml = "=0.8.23"
toml_edit = "=0.22.27"
url = "=2.5.8"
walkdir = "=2.5.0"

[dev-dependencies]
tempfile = "=3.27.0"
