[package]
name = "chroma_waterfall"
version = "0.1.0"
edition = "2021"
publish = false

[dependencies]
realfft = "=3.5.1"
rustfft = "=6.4.1"
iced = { version = "=0.14.0", default-features = false, features = ["advanced", "x11", "thread-pool"] }
