[package]
name = "voxels"
version = "0.1.0"
edition = "2021"
publish = false

[dependencies]
hashbrown = "0.14"
noise = { version = "0.7", default-features = false }
serde = { version = "1", features = ["derive"] }
