[package]
name = "zero_copy_cache"
version = "0.1.0"
edition = "2021"
publish = false

[dependencies]
lru = "=0.19.0"
wtinylfu = "=0.3.0"
color-eyre = "=0.6.5"
tracing = "=0.1.44"

[dev-dependencies]
rand = "=0.8.8"
