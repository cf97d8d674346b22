[package]
name = "mapdb"
version = "0.1.0"
edition = "2021"
publish = false

[dependencies]
arc-swap = "1"
parking_lot = "0.12"
