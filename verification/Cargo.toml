[package]
name = "chd2iso"
version = "0.1.0"
edition = "2021"
publish = false

[dependencies]
anyhow = "=1.0.104"
chd = "=0.3.4"
clap = { version = "=4.6.7", features = ["derive"] }
fuser = "=0.18.0"
libc = "=0.2.190"
lru = { version = "=0.18.5", default-features = false }
tracing = "=0.1.44"
tracing-subscriber = { version = "=0.3.23", features = ["env-filter"] }
