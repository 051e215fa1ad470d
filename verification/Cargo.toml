[package]
name = "typshow"
version = "0.1.5"
edition = "2021"
publish = false

[dependencies]
pulldown-cmark = { version = "0.13", default-features = false }
rusqlite = { version = "0.37", features = ["bundled"] }
parking_lot = "0.12"
tracing = "0.1"
tracing-subscriber = { version = "0.3", features = ["env-filter"] }
egui = "0.33"
eframe = { version = "0.33", default-features = false, features = ["glow", "wayland", "x11", "default_fonts"] }
egui-phosphor = "0.11"
fontdb = "0.23"
