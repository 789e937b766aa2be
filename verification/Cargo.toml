[package]
name = "octasoma"
version = "0.1.0"
edition = "2021"
publish = false

[dependencies]
lz4_flex = "0.11"
sha2 = "0.10"
serde = { version = "1", features = ["derive"] }
serde_json = "1"
wgpu = { version = "0.20", default-features = false, features = ["wgsl"] }
pollster = "0.3"
bytemuck = "1"
