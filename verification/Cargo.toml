[package]
name = "cran_incoming"
version = "0.1.0"
edition = "2021"
publish = false

[dependencies]
chrono = { version = "0.4", features = ["serde"] }
chrono-tz = "*"
regex = "1"
suppaftp = "*"
rocket = { version = "0.5", features = ["json"] }
