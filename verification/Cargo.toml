[package]
name = "basecamp"
version = "1.19.0"
edition = "2021"
publish = false

[dependencies]
chrono = { version = "=0.4.45", default-features = false, features = ["now", "std", "alloc"] }
dirs = "=6.0.0"
eframe = { version = "=0.31.1", default-features = false, features = ["default_fonts", "glow", "x11"] }
egui = { version = "=0.31.1", default-features = false }
image = { version = "=0.25.10", default-features = false, features = ["png"] }
open = "=5.4.5"
reqwest = { version = "=0.12.28", default-features = false, features = ["blocking", "json", "rustls-tls"] }
serde = { version = "=1.0.229", features = ["derive"] }
serde_json = "=1.0.154"
