[package]
name = "qrtransfer"
version = "0.1.0"
edition = "2021"
publish = false

[dependencies]
base64 = "*"
brotli = "*"
sha1 = "*"
qrcode = { version = "*", default-features = false, features = ["svg"] }
