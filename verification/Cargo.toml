[package]
name = "borys"
version = "0.1.0"
edition = "2021"
publish = false

[dependencies]
serde = { version = "1", features = ["derive"] }
serde_json = "1"
image = "0.23"
imageproc = "0.22"
rusttype = "0.9"
sdl2 = { version = "0.34", features = ["ttf"] }
