[package]
name = "plannotator"
version = "0.1.0"
edition = "2021"
publish = false

[dependencies]
pulldown-cmark = { version = "0.13", default-features = false }
similar = "2"
sha1_smol = "1"
anyhow = "1"
