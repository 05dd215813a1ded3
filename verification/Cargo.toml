[package]
name = "vrptw_code"
version = "0.1.0"
edition = "2021"
publish = false

[dependencies]
rand = "=0.8.8"
egui = "=0.29.1"
eframe = { version = "=0.29.1", default-features = false, features = ["default_fonts", "glow", "x11"] }
inventory = "=0.3.25"
plotters = { version = "=0.3.7", default-features = false, features = ["bitmap_backend", "bitmap_encoder", "line_series", "ab_glyph"] }
