[package]
name = "amtt"
version = "0.1.0"
edition = "2021"
publish = false

[dependencies]
jwt-simple = { version = "=0.12.17", default-features = false, features = ["pure-rust"] }
p256 = "=0.13.2"
clap = { version = "=4.6.7", features = ["derive"] }
anyhow = "=1.0.104"
