[package]
name = "lilo"
version = "0.0.1"
edition = "2021"
publish = false

[dependencies]
chrono = { version = "=0.4.45", features = ["serde"] }
directories = "=6.0.0"
eframe = { version = "=0.37.0", default-features = false, features = ["default_fonts", "glow", "x11"] }
serde = { version = "=1.0.229", features = ["derive"] }
serde_json = "=1.0.154"
serde-saphyr = "=2.0.0"
uuid = { version = "=1.29.0", features = ["v4", "serde"] }
