[package]
name = "jabcode"
version = "0.1.0"
edition = "2021"
publish = false

[dependencies]
thiserror = "1"
png = "0.17"
rayon = "1"
bytemuck = { version = "1", features = ["derive"] }
wgpu = "22"
pollster = "0.3"
