[package]
name = "key_channel"
version = "0.1.0"
edition = "2021"

[dependencies]
parking_lot = "0.12"
thiserror = "1"
