[package]
name = "razer_control"
version = "0.1.0"
edition = "2021"
publish = false

[dependencies]
gtk = "0.18"
lazy_static = "1"
log = "0.4"
nvml-wrapper = "*"
serde = { version = "1", features = ["derive"] }
serde_json = "1"
