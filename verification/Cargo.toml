[package]
name = "tasker"
version = "0.1.0"
edition = "2021"
publish = false

[dependencies]
clap = { version = "4", features = ["derive"] }
eframe = { version = "*", default-features = false, features = ["glow", "x11"] }

[dev-dependencies]
serde_json = "1"
