[package]
name = "pandoc_norg_converter"
version = "0.1.0"
edition = "2021"
publish = false

[dependencies]
clap = { version = "=4.6.7", features = ["derive"] }
env_logger = "=0.11.11"
log = "=0.4.34"
pandoc_types = "=0.6.0"
serde = "=1.0.229"
serde_json = "=1.0.151"
tree-sitter = "=0.20.10"
tree-sitter-norg = "=0.1.1"
