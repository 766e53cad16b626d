[package]
name = "journal"
version = "0.1.0"
edition = "2021"
publish = false

[dependencies]
chrono = "0.4"
log = "0.4"
regex = "1.5"
shellexpand = "2.1.0"
tree-sitter = "0.25"
