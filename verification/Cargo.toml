[package]
name = "rdp_core"
version = "0.1.0"
edition = "2021"
publish = false

[dependencies]
eframe = { version = "=0.23.0", default-features = false, features = ["glow", "default_fonts"] }
egui_plot = "=0.23.0"
env_logger = { version = "0.10", default-features = false }
