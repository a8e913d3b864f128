[package]
name = "iwaks"
version = "0.1.0"
edition = "2021"
publish = false

[dependencies]
base64 = "0.22"
lofty = "0.22"
rusqlite = { version = "*", features = ["bundled"] }
walkdir = "2"
serde = { version = "1", features = ["derive"] }
thiserror = "2"
symphonia = "0.5"
rustfft = "6"
libloading = "0.8"
