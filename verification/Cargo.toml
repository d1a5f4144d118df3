[package]
name = "neodepends"
version = "0.1.0"
edition = "2021"
publish = false

[dependencies]
sha1 = "*"
git2 = "*"
walkdir = "*"
clap = { version = "*", features = ["derive"] }
clap-verbosity-flag = "*"
anyhow = "*"
serde = { version = "*", features = ["derive"] }
serde_json = "*"
csv = "*"
log = "*"
env_logger = "*"
subprocess = "*"
tempfile = "*"
tree-sitter = "*"
tree-sitter-java = "*"
