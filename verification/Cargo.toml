[package]
name = "sonic"
version = "0.1.0"
edition = "2021"
publish = false

[dependencies]
flate2 = "1"
serde = { version = "1", features = ["derive"] }
serde_json = "1"
lofty = "*"
image = { version = "*", default-features = false, features = ["png", "jpeg"] }
rodio = "*"
souvlaki = "*"
rfd = "*"
raw-window-handle = "0.6"
smallvec = "1"
anyhow = "1"
windows = "*"
