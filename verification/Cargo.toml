[package]
name = "mask_refine"
version = "0.1.0"
edition = "2021"
publish = false

[dependencies]
image = "=0.24.9"
skeletonize = "=0.2.0"
serde = { version = "*", features = ["derive"] }
serde_json = "*"
