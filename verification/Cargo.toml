[package]
name = "emet"
version = "0.1.0"
edition = "2021"
publish = false

[dependencies]
aes-siv = "=0.7.0"
blake3 = "=1.5.5"
hex = "=0.4.3"
clap = { version = "=4.5.61", features = ["derive"] }
ariadne = "=0.4.1"
serde = { version = "1", features = ["derive"] }
serde_json = "1"
lsp-server = "=0.7.9"
lsp-types = "=0.95.1"
