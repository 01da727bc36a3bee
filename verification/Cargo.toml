[package]
name = "rip"
version = "0.1.0"
edition = "2021"
publish = false

[dependencies]
qrcode = { version = "0.14", default-features = false }
barcoders = "2"
sha2 = "0.10"
image = { version = "0.25", default-features = false, features = ["png", "jpeg", "gif", "bmp", "webp"] }
resvg = { version = "0.45", default-features = false }
fontdue = "0.9"
ureq = { version = "3", default-features = false }
