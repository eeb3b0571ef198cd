[package]
name = "signal_tree"
version = "0.1.0"
edition = "2021"
publish = false

[dependencies]
regex = "1"
serde = { version = "1", features = ["derive"] }
egui = { version = "0.31", default-features = false }
