[package]
name = "rgit"
version = "0.1.0"
edition = "2021"
publish = false

[dependencies]
sha1 = "0.10"
flate2 = "1"
chrono = { version = "0.4", default-features = false, features = ["clock"] }
