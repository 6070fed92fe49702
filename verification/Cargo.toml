[package]
name = "redextract"
version = "0.1.0"
edition = "2021"
publish = false

[dependencies]
clap = "4"
image = { version = "0.25", default-features = false, features = ["png"] }
