[package]
name = "relatable"
version = "0.1.0"
edition = "2021"
publish = false

[dependencies]
glob = "0.3"
log = "0.4"
thiserror = "1"
walkdir = "2"
