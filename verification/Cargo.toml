[package]
name = "accent_proust"
version = "0.1.0"
edition = "2021"
publish = false

[dependencies]
pulldown-cmark = { version = "=0.13.6", default-features = false }
clap = { version = "4", features = ["derive"] }
similar = "2"
