[package]
name = "route_planner"
version = "0.1.0"
edition = "2021"
publish = false

[dependencies]
ahash = "0.8"
indicatif = "0.17"
rand = "0.8"
rayon = "1"
serde = { version = "1", features = ["derive"] }
serde_json = "1"
