[package]
name = "soundvault_lib"
version = "0.1.0"
edition = "2021"
publish = false

[dependencies]
blake3 = "1"
dunce = "1"
flate2 = "1"
quick-xml = "0.37"
rayon = "1"
serde = { version = "1", features = ["derive"] }
serde_json = "1"
thiserror = "1"
time = { version = "0.3", features = ["formatting"] }
walkdir = "2"

[dev-dependencies]
