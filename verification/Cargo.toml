[package]
name = "superseedr"
version = "0.1.0"
edition = "2021"
publish = false

[dependencies]
hex = "0.4"
sha1 = "0.10"
sha2 = "0.10"
urlencoding = "2"
magnet-url = "*"
rand = "0.9"
tokio = { version = "1", features = ["fs", "rt", "macros", "time"] }
