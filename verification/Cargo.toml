[package]
name = "staffa"
version = "0.1.0"
edition = "2021"
publish = false

[dependencies]
fastrand = "=2.5.0"
clap = { version = "=4.6.7", features = ["derive"] }
csv = "=1.4.0"
indicatif = { version = "=0.18.6", features = ["rayon"] }
rayon = "=1.12.0"
tract-onnx = "=0.23.8"
