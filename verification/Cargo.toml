[package]
name = "prtoolbar"
version = "0.1.0"
edition = "2021"
publish = false

[dependencies]
anyhow = "1"
block2 = "0.6"
env_logger = "0.11"
image = { version = "0.25", default-features = false, features = ["png", "jpeg"] }
jiff = "0.2"
log = "0.4"
objc2 = "0.6"
objc2-app-kit = "0.3"
objc2-foundation = "0.3"
open = "5"
serde = { version = "1", features = ["derive"] }
serde_json = "1"
ureq = { version = "3", features = ["json"] }
