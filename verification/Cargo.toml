[package]
name = "quickner"
version = "0.1.0"
edition = "2021"
publish = false

[dependencies]
aho-corasick = "*"
clap = { version = "*", features = ["derive"] }
csv = "*"
env_logger = "*"
indicatif = "*"
log = "*"
rayon = "*"
serde = { version = "*", features = ["derive"] }
serde_json = "*"
toml = "*"
