[package]
name = "def_resolver"
version = "0.1.0"
edition = "2021"
publish = false

[dependencies]
quick-xml = "0.37"
eframe = { version = "0.29", default-features = false, features = ["default_fonts", "glow", "x11"] }
rfd = "0.15"
walkdir = "2"
rayon = "1"
serde = { version = "1", features = ["derive"] }
serde_json = "1"
