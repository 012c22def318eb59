[package]
name = "csv_lsp"
version = "0.1.0"
edition = "2021"
publish = false

[dependencies]
lsp-server = "0.7"
lsp-types = "0.97"
serde_json = "1"
unicode-width = "0.2"
