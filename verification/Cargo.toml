[package]
name = "psf_guard"
version = "0.1.0"
edition = "2021"
publish = false

[dependencies]
anyhow = "1"
serde = { version = "1", features = ["derive"] }
serde_json = "1"
chrono = "0.4"
clap = { version = "4", features = ["derive"] }
fitrs = "*"
rusqlite = { version = "*", features = ["bundled"] }
image = { version = "0.25", default-features = false, features = ["png"] }
imageproc = { version = "*", default-features = false }
nalgebra = "*"
