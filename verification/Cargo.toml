[package]
name = "flatconvert"
version = "0.1.0"
edition = "2021"
publish = false

[dependencies]
freetype-rs = "=0.38.0"
clap = { version = "=3.2.25", features = ["derive"] }
heatshrink = "*"
