[package]
name = "dsviz"
version = "0.1.0"
edition = "2021"
publish = false

[dependencies]
serde = { version = "1", features = ["derive"] }
serde_json = "1"
macroquad = "0.3"
egui = "0.21"
egui-macroquad = "0.15"
