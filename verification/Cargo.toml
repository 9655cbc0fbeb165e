[package]
name = "text_canvas"
version = "0.1.0"
edition = "2021"
publish = false

[dependencies]
cosmic-text = "0.12"
