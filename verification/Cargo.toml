[package]
name = "rustparse"
version = "0.1.0"
edition = "2021"
publish = false

[dependencies]
tree-sitter = "=0.17.1"
tree-sitter-java = "=0.16.0"
regex = "=1.13.1"
toml = "=1.1.7"
serde = "=1.0.229"
serde_derive = "=1.0.229"
walkdir = "=2.5.0"
docopt = "=1.1.1"
