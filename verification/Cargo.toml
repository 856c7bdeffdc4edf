[package]
name = "tetris_ai"
version = "0.1.4"
edition = "2021"
publish = false

[dependencies]
rand = "0.8"
serde = { version = "1", features = ["derive"] }
serde_json = "1"
axum = "0.7"
tokio = { version = "1", features = ["rt-multi-thread", "macros", "sync", "time", "net"] }
tower-http = { version = "0.5", features = ["fs"] }
crossterm = "0.27"
rayon = "1"
wgpu = "23"
bytemuck = { version = "1", features = ["derive"] }
futures = "0.3"
