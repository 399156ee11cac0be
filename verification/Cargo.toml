[package]
name = "urltools"
version = "0.1.0"
edition = "2021"
publish = false

[dependencies]
base64 = "0.13"
chrono = "0.4"
nalgebra = "*"
regex = "*"
sha2 = "*"
unicode-segmentation = "*"
uuid = { version = "*", features = ["v4"] }
