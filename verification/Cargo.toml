[package]
name = "sgl_router"
version = "0.1.0"
edition = "2021"
publish = false

[dependencies]
actix-web = "=4.18.1"
anyhow = "=1.0.104"
bytes = "=1.12.1"
chrono = "=0.4.45"
env_logger = "=0.11.11"
futures = "=0.3.34"
futures-util = "=0.3.34"
k8s-openapi = { version = "=0.27.1", features = ["latest"] }
kube = { version = "=3.1.0", default-features = false, features = ["client"] }
log = "=0.4.34"
reqwest = { version = "=0.12.28", default-features = false, features = ["stream"] }
serde_json = "=1.0.154"
thiserror = "=1.0.69"
tokio = { version = "=1.54.1", features = ["rt-multi-thread", "macros", "sync", "time"] }
