[package]
name = "clipvault"
version = "0.1.0"
edition = "2021"
publish = false

[dependencies]
arboard = { version = "3", default-features = false }
block2 = "0.6"
chrono = "0.4"
ctrlc = "3"
dirs = "*"
global-hotkey = "0.7"
libc = "0.2"
muda = { version = "0.17", default-features = false }
objc2 = "0.6"
objc2-app-kit = "0.3"
objc2-foundation = "0.3"
objc2-service-management = "0.3"
serde = { version = "1", features = ["derive"] }
serde_json = "1"
