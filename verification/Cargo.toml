[package]
name = "explorer"
version = "0.1.0"
edition = "2021"
publish = false

[dependencies]
image = { version = "0.25", default-features = false, features = ["png", "jpeg", "gif", "bmp", "webp", "ico", "tiff", "qoi", "tga"] }
open = "5"
libc = "0.2"
