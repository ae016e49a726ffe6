[package]
name = "subscription_map"
version = "0.1.0"
edition = "2021"
publish = false

[dependencies]
async-observable = "*"
async-std = "*"
anyhow = "*"
log = "*"
