[package]
name = "i3_dmenu_desktop_rs"
version = "0.1.0"
edition = "2021"
publish = false

[dependencies]
bincode = "=1.3.3"
serde = { version = "=1.0.229", features = ["derive"] }

[dev-dependencies]
regex = "1"
