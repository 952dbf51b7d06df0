[package]
name = "shape_finder"
version = "0.1.0"
edition = "2021"
publish = false

[dependencies]
anyhow = "*"
clap = { version = "*", features = ["derive"] }
image = "*"
pdfium-render = "*"
svg = "*"
