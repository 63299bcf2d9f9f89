[package]
name = "hcscrgen"
version = "0.1.0"
edition = "2021"
publish = false

[dependencies]
image = { version = "0.25", default-features = false, features = ["png", "gif", "jpeg", "bmp"] }
rand = "0.8"
clap = { version = "4", features = ["derive"] }
