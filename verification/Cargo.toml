[package]
name = "os_checker"
version = "0.1.0"
edition = "2021"
publish = false

[dependencies]
argh = "=0.1.19"
basic-toml = "=0.1.10"
camino = "=1.2.6"
cargo_metadata = "=0.23.1"
duct = "=1.1.2"
eyre = "=0.6.14"
glob = "=0.3.4"
indexmap = "=2.14.2"
marked-yaml = { version = "=0.8.0", features = ["serde"] }
redb = "=4.3.0"
regex = "=1.13.1"
schemars = "=1.2.2"
serde = { version = "=1.0.229", features = ["derive"] }
serde_json = "=1.0.151"
strip-ansi-escapes = "=0.2.1"
time = "=0.3.55"
walkdir = "=2.5.0"
