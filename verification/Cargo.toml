[package]
name = "ascii-fmt"
version = "0.1.0"
edition = "2021"
publish = false

[dependencies]
unicode-display-width = "*"
clap = { version = "4", features = ["derive"] }
