[package]
name = "doxx"
version = "0.1.0"
edition = "2021"
publish = false

[dependencies]
unicode-segmentation = "*"
docx-rs = "*"
zip = "*"
anyhow = "*"
clap = { version = "*", features = ["derive"] }
crossterm = "*"
