[package]
name = "pinnaclesort"
version = "0.1.0"
edition = "2021"
publish = false

[dependencies]
whoami = "1"
eframe = { version = "0.29", default-features = false, features = ["default_fonts", "glow", "x11"] }
