[package]
name = "fd_gui"
version = "0.1.0"
edition = "2021"
publish = false

[dependencies]
regex = "1"
ignore = "0.4"
serde = { version = "1", features = ["derive"] }
serde_json = "1"
dirs = "6"
open = "5"
rfd = "0.15"
eframe = { version = "0.31", default-features = false, features = ["default_fonts", "glow", "x11"] }
