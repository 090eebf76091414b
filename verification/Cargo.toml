[package]
name = "base9_builder"
version = "0.1.0"
edition = "2021"
publish = false

[dependencies]
palette = "=0.7.7"
rand = { version = "=0.8.8", features = ["small_rng"] }
num-traits = "0.2"
anyhow = "=1.0.104"
clap = { version = "=3.2.25", features = ["cargo"] }
serde = { version = "=1.0.229", features = ["derive"] }
serde_json = "=1.0.151"
mustache = "=0.9.0"
