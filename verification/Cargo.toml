[package]
name = "smem_exporter"
version = "0.1.0"
edition = "2021"
publish = false

[dependencies]
axum = "*"
clap = { version = "*", features = ["derive"] }
git-version = "*"
prometheus = "*"
rayon = "*"
serde = { version = "*", features = ["derive"] }
serde_yaml = "*"
tokio = { version = "*", features = ["macros", "net", "rt-multi-thread", "signal", "sync", "time"] }
