[package]
name = "termframe"
version = "0.1.0"
edition = "2021"
publish = false

[dependencies]
unicode-segmentation = "1"
unicode-width = "0.2"
crossterm = "0.28"
serde = { version = "1", features = ["derive"] }

[dev-dependencies]
serde_json = "1"
