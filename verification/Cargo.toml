[package]
name = "boolstack"
version = "0.1.0"
edition = "2021"
publish = false

[dependencies]
rustyline = { version = "9", default-features = false }
