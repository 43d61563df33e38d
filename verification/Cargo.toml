[package]
name = "fortitude"
version = "0.1.0"
edition = "2021"
publish = false

[dependencies]
anyhow = "=1.0.104"
clap = { version = "=4.6.7", features = ["derive"] }
regex = "=1.13.1"
serde = { version = "=1.0.229", features = ["derive"] }
serde_json = "=1.0.154"
quick-junit = "*"
similar = { version = "=2.7.0", features = ["inline"] }
tree-sitter = "=0.27.1"
tree-sitter-fortran = "=0.6.0"
