[package]
name = "gossip"
version = "0.1.0"
edition = "2021"
publish = false

[dependencies]
rand = "0.5"
