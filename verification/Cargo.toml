[package]
name = "rust_prompt_armor"
version = "0.1.0"
edition = "2021"
publish = false

[dependencies]
aho-corasick = "=1.1.3"
anyhow = "=1.0.95"
async-trait = "=0.1.83"
base64 = "=0.22.1"
hex = "=0.4.3"
regex = "=1.11.1"
strsim = "=0.11.1"
thiserror = "=2.0.18"
unicode-normalization = "=0.1.24"
