[package]
name = "cache_latency"
version = "0.1.0"
edition = "2021"
publish = false

[dependencies]
anyhow = "*"
core_affinity = "*"
fastrand = "*"
perf-event2 = "*"
plotters = "*"
serde = { version = "*", features = ["derive"] }
size = "*"
tabled = "*"
toml = "*"
