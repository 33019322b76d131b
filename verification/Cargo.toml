[package]
name = "chess_core"
version = "0.1.0"
edition = "2021"
publish = false

[dependencies]
chrono = { version = "0.4", default-features = false, features = ["clock"] }
eframe = { version = "0.27", default-features = false }
egui_extras = { version = "0.27", default-features = false }
fnv = "1.0"
rand = "0.8"
