[package]
name = "rusticker"
version = "0.1.0"
edition = "2021"
publish = false

[dependencies]
clap = { version = "=4.6.7", features = ["derive"] }
image = { version = "=0.25.10", default-features = false, features = ["png", "jpeg", "webp"] }
printpdf = { version = "=0.8.2", default-features = false, features = ["png"] }
tract-onnx = "=0.23.9"
tract-core = "=0.23.9"
tract-hir = "=0.23.9"
ureq = "=2.12.1"
