[package]
name = "lieui"
version = "0.1.0"
edition = "2021"
publish = false

[dependencies]
slotmap = "1"
serde = { version = "1", features = ["derive"] }
serde_json = "1"
tungstenite = "0.24"
winit = { version = "0.30", default-features = false, features = ["x11", "rwh_06"] }
arboard = { version = "3", default-features = false }
