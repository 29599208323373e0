[package]
name = "nanorts"
version = "0.1.0"
edition = "2021"
publish = false

[dependencies]
minifb = { version = "0.27", default-features = false, features = ["x11"] }
cpal = "0.15"
