[package]
name = "expense_visualizer"
version = "0.1.0"
edition = "2021"
publish = false

[dependencies]
chrono = { version = "0.4", default-features = false, features = ["clock", "std"] }
egui = "0.27"
rfd = { version = "0.14", default-features = false, features = ["xdg-portal", "tokio"] }
