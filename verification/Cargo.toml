[package]
name = "syntect"
version = "0.1.0"
edition = "2021"
publish = false

[dependencies]
fancy-regex = "=0.20.0"
fnv = "=1.0.7"
regex-syntax = "=0.8.11"
thiserror = "=2.0.21"

[dev-dependencies]
yaml-rust = "=0.4.5"
