[package]
name = "curlu"
version = "0.1.0"
edition = "2021"
publish = false

[dependencies]
serde = { version = "1", features = ["derive"] }
serde_json = "1"
dirs = "6"
egui = "0.31"
eframe = { version = "0.31", default-features = false, features = ["glow", "x11", "default_fonts"] }
reqwest = { version = "0.12", default-features = false, features = ["blocking", "rustls-tls"] }
rfd = { version = "0.15", default-features = false, features = ["gtk3"] }
