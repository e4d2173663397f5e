[package]
name = "opencodesearchparser"
version = "0.1.0"
edition = "2021"
publish = false

[dependencies]
anyhow = "1"
rayon = "1"
tree-sitter = "*"
tree-sitter-c = "*"
tree-sitter-cpp = "*"
tree-sitter-javascript = "*"
tree-sitter-python = "*"
tree-sitter-rust = "*"
walkdir = "2"
