[package]
name = "communal"
version = "0.1.0"
edition = "2021"
publish = false

[dependencies]
rand = "0.9"
rand_chacha = "0.9"
rustc-hash = "2"
thiserror = "2"
tracing = "0.1"
clap = { version = "4", features = ["derive"] }
