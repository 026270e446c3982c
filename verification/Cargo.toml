[package]
name = "dircompare"
version = "0.1.0"
edition = "2021"
publish = false

[dependencies]
egui = { version = "=0.31.1", default-features = false }
eframe = { version = "=0.31.1", default-features = false, features = ["default_fonts", "glow", "x11", "wayland"] }
rfd = "=0.15.4"
walkdir = "=2.5.0"
