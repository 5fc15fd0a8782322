[package]
name = "irc"
version = "0.1.0"
edition = "2021"
publish = false

[dependencies]
regex-syntax = "=0.8.11"
rand = "=0.8.8"
image = { version = "=0.25.10", default-features = false, features = ["bmp", "dds", "exr", "ff", "gif", "hdr", "ico", "jpeg", "png", "pnm", "qoi", "tga", "tiff", "webp"] }
mio = "=0.6.23"
hyper = "=0.10.16"
mongodb = { version = "=3.9.1", features = ["sync"] }
bson = "=2.15.0"
serde = { version = "=1.0.229", features = ["derive"] }
serde_json = "=1.0.154"

[dev-dependencies]
regex = "=1.13.1"
