[package]
name = "benchdb"
version = "0.1.0"
edition = "2021"
publish = false

[dependencies]
anyhow = "*"
chrono = { version = "*", default-features = false, features = ["clock"] }
clap = { version = "*", features = ["derive"] }
git2 = { version = "*", default-features = false }
git-graph = "*"
indicatif = "*"
pollster = "*"
serde = { version = "*", features = ["derive"] }
serde_json = "*"
sysinfo = "*"
tracing = "*"
tracing-indicatif = "*"
tracing-subscriber = { version = "*", features = ["env-filter"] }
wgpu = { version = "*", default-features = false }
