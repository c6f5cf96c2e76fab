[package]
name = "pdf_page_extractor"
version = "0.1.0"
edition = "2021"
publish = false

[dependencies]
lopdf = "0.34"
eframe = { version = "0.29", default-features = false, features = ["default_fonts", "glow", "x11"] }
rfd = "0.15"
