[package]
name = "l1_frontend"
version = "0.1.0"
edition = "2021"
publish = false

[dependencies]
ariadne = "0.5"
color-eyre = "0.6"
thiserror = "2"
tree-sitter = "*"
tree-sitter-traversal = "*"

[dev-dependencies]
chumsky = "0.10"
