[package]
name = "eleven_cell"
version = "0.1.0"
edition = "2021"
publish = false

[dependencies]
rand = "*"
eframe = { version = "*", default-features = false, features = ["default_fonts", "glow", "x11"] }
