[package]
name = "local_locker"
version = "0.1.0"
edition = "2021"

[dependencies]
async-trait = "0.1"
