[package]
name = "vector_magik"
version = "0.1.0"
edition = "2021"
publish = false

[dependencies]
egui = { version = "0.33", default-features = false, features = ["default_fonts"] }
eframe = { version = "0.33", default-features = false, features = ["default_fonts", "glow", "x11"] }
image = { version = "0.25", default-features = false, features = ["png", "jpeg", "gif", "bmp", "pnm"] }
resvg = { version = "0.45", default-features = false, features = ["text", "raster-images"] }
