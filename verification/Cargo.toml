[package]
name = "stpro"
version = "0.1.0"
edition = "2021"
publish = false

[dependencies]
regex = "1"
eframe = { version = "0.29", default-features = false, features = ["default_fonts", "glow", "x11"] }
