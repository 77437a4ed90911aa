[package]
name = "analysis_server"
version = "0.1.0"
edition = "2021"
publish = false

[dependencies]
im = "15.1"
relative-path = "1.9"
rustc-hash = "1.1"
crossbeam-channel = "0.5"
threadpool = "1.8"
serde = { version = "1", features = ["derive"] }
serde_json = "1"
languageserver-types = "*"
failure = "0.1"
failure_derive = "0.1"
log = "0.4"
