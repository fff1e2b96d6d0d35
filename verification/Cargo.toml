[package]
name = "geometry_rtree"
version = "0.1.0"
edition = "2021"
publish = false

[dependencies]
heapless = "0.8"
serde = { version = "1", features = ["derive"] }

[dev-dependencies]
serde_json = "1"
