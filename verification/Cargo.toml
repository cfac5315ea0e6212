[package]
name = "super_gemma"
version = "0.1.0"
edition = "2021"
publish = false

[dependencies]
anyhow = "1"
ash = "0.38"
clap = { version = "4", features = ["derive"] }
half = "2"
libc = "0.2"
rayon = "1"
serde = { version = "1", features = ["derive"] }
serde_json = "1"
thiserror = "2"
vulkano = "0.35"
