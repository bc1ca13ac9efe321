[package]
name = "ton_accounts"
version = "0.1.0"
edition = "2021"
publish = false

[dependencies]
anyhow = "=1.0.104"
rustc-hash = "=2.1.3"
sha2 = "=0.10.9"
