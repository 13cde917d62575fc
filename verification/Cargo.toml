[package]
name = "miso_types"
version = "0.1.0"
edition = "2021"
publish = false

[dependencies]
borsh = "0.10"
