[package]
name = "markrust_wysiwyg"
version = "0.1.0"
edition = "2021"
publish = false

[dependencies]
base64 = "0.22"
dirs = "*"
image = { version = "0.25", default-features = false, features = ["png", "jpeg", "gif", "webp", "bmp"] }
reqwest = { version = "0.12", default-features = false, features = ["blocking", "rustls-tls"] }
sha2 = "0.10"
unicode-segmentation = "1"
