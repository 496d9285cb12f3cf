[package]
name = "sanic"
version = "1.0.0"
edition = "2021"
publish = false

[dependencies]
byteorder = "1"
clap = { version = "4", features = ["derive"] }
thiserror = "1"
tracing = "0.1"
