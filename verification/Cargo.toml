[package]
name = "metrowrap"
version = "0.2.0"
edition = "2021"
publish = false

[dependencies]
memchr = "2"
clap = { version = "4", features = ["derive"] }
tempfile = "3"
thiserror = "2"
