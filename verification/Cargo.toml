[package]
name = "emqu"
version = "0.1.0"
edition = "2021"
publish = false

[dependencies]
clap = { version = "=4.6.7", features = ["derive"] }
dirs = "=7.0.0"
fastembed = { version = "=7.1.1", default-features = false, features = ["ort-load-dynamic", "hf-hub-rustls-tls"] }
glob = "=0.3.4"
indicatif = "=0.18.6"
tokenizers = { version = "=0.23.2", features = ["http"] }
