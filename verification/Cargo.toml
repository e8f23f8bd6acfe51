[package]
name = "xiangqi"
version = "0.1.0"
edition = "2021"
publish = false

[dependencies]
anyhow = "1"
clap = { version = "4", default-features = false, features = ["std", "derive", "help", "usage", "error-context"] }
eframe = { version = "0.31", default-features = false, features = ["default_fonts", "glow"] }
env_logger = { version = "0.11", default-features = false }
log = "0.4"
ort = { version = "=2.0.0-rc.15", default-features = false, features = ["std", "load-dynamic", "cuda"] }
rand = { version = "=0.8.8", features = ["small_rng"] }
rand_distr = "=0.4.3"
rayon = "1"
safetensors = "=0.4.5"
serde = { version = "1", features = ["derive"] }
serde_json = "1"
tch = { version = "=0.26.0", default-features = false }
tokio = { version = "1", features = ["rt-multi-thread", "macros", "sync", "time"] }
tracing = "0.1"
tracing-subscriber = { version = "0.3", features = ["env-filter"] }
