[package]
name = "wizctl"
version = "0.2.0"
edition = "2021"
publish = false

[dependencies]
image = { version = "0.25", default-features = false, features = ["png", "jpeg", "gif", "webp", "bmp", "tiff"] }
serde = { version = "1.0", features = ["derive"] }
serde_json = "1.0"
eframe = { version = "0.31", default-features = false, features = ["default_fonts", "glow", "x11"] }
