[package]
name = "h2md"
version = "0.1.0"
edition = "2021"
publish = false

[dependencies]
html5ever = "=0.39.0"
markup5ever_rcdom = "=0.39.0+unofficial"
unicode-width = "=0.2.3"
clap = { version = "=4.6.7", features = ["derive"] }
