[package]
name = "file_commander"
version = "0.1.0"
edition = "2021"
publish = false

[dependencies]
arboard = { version = "=3.4.1", default-features = false }
chrono = "=0.4.45"
directories = "=4.0.1"
eframe = { version = "0.29", default-features = false, features = ["default_fonts", "glow", "x11"] }
open = "=5.4.5"
trash = "=1.3.0"
