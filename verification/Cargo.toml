[package]
name = "stair_core"
version = "0.1.0"
edition = "2021"
publish = false

[dependencies]
libm = "0.2"
hound = "3.5"
png = "0.17"
rustfft = "6"
serde = { version = "1", features = ["derive"] }
serde_json = "1"
