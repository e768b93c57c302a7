[package]
name = "openparts_kicad_plugin"
version = "0.1.0"
edition = "2021"
publish = false

[dependencies]
eframe = { version = "=0.37.0", default-features = false, features = ["default_fonts", "glow", "x11"] }
kicad-ipc-rs = { version = "=0.5.1", features = ["blocking"] }
thiserror = "=2.0.21"
