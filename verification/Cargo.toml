[package]
name = "peer_stats"
version = "0.1.0"
edition = "2021"
publish = false

[dependencies]
chashmap = "2.2"
