[package]
name = "eks"
version = "0.1.0"
edition = "2021"
publish = false

[dependencies]
palette = "0.6"
argh = "0.1"
colorous = "1"
