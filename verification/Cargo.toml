[package]
name = "sediment"
version = "0.1.0"
edition = "2021"
publish = false

[dependencies]
image = { version = "0.24", default-features = false, features = ["png", "jpeg"] }
imageproc = { version = "0.23", default-features = false }
rand = "0.8"
rayon = "1"
indicatif = "0.17"
clap = { version = "4", features = ["derive"] }
