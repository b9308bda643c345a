[package]
name = "sab_workshop"
version = "0.1.0"
edition = "2021"
publish = false

[dependencies]
flate2 = "1"
png = "0.17"
serde = { version = "1", features = ["derive"] }
serde_json = "1"
glam = "0.27"
egui = "0.28"
pollster = "0.3"
