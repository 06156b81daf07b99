[package]
name = "tpt_visual"
version = "0.1.0"
edition = "2021"
publish = false

[dependencies]
image = { version = "0.25", default-features = false, features = ["jpeg", "png"] }
serde = { version = "1", features = ["derive"] }
thiserror = "1"
arc-swap = "1"
bytemuck = { version = "1", features = ["derive"] }
pollster = "0.3"
log = "0.4"
wgpu = "0.19"
