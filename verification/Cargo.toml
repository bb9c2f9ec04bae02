[package]
name = "voronoi_core"
version = "0.1.0"
edition = "2021"
publish = false

[dependencies]
rand = "0.8"
rand_chacha = "0.3"
image = "0.25"
rayon = "1"
clap = { version = "4", features = ["derive"] }
serde = { version = "1", features = ["derive"] }
serde_yaml = "0.9"
anyhow = "1"
gif = "0.13"
indicatif = "0.17"
ctrlc = "3"
thiserror = "1"
