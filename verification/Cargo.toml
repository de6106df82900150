[package]
name = "llmchain"
version = "0.1.0"
edition = "2021"
publish = false

[dependencies]
anyhow = "1"
async-trait = "0.1"
glob = "0.3"
log = "0.4"
patch = "0.7"
