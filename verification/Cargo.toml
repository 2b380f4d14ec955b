[package]
name = "shakedown"
version = "0.1.0"
edition = "2021"
publish = false

[dependencies]
anyhow = "1"
eframe = { version = "0.29", default-features = false, features = ["default_fonts", "glow", "x11"] }
egui = "0.29"
env_logger = "0.11"
log = "0.4"
nix = { version = "0.29", features = ["signal", "process"] }
serde_json = "1"
