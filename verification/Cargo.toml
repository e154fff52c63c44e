[package]
name = "suzuri"
version = "0.4.3"
edition = "2021"
publish = false

[dependencies]
anyhow = "1"
biblatex = "*"
log = "0.4"
rustc-hash = "2"
semver = "1"
tree-sitter = "0.25"
urlencoding = "2"
