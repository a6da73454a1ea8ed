[package]
name = "arnab"
version = "0.1.0"
edition = "2021"
publish = false

[dependencies]
minijinja = "=2.24.0"
sqlparser = "=0.63.0"
clap = { version = "=4.6.7", features = ["derive"] }
serde = { version = "=1.0.229", features = ["derive"] }
serde_yaml = "=0.9.34"
chrono = "=0.4.45"
colored = "=3.1.1"
glob = "=0.3.4"
layout-rs = "=0.1.3"
