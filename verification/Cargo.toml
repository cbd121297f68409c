[package]
name = "iam_auth_controller"
version = "0.1.0"
edition = "2021"
publish = false

[dependencies]
anyhow = "=1.0.104"
env_logger = "=0.11.11"
futures = "=0.3.34"
hyper = { version = "=0.14.32", features = ["client", "http1", "tcp"] }
k8s-openapi = { version = "=0.27.1", features = ["latest"] }
kube = { version = "=3.1.0", features = ["client", "derive"] }
kube-runtime = "=3.1.0"
log = "=0.4.34"
metrics = "=0.24.6"
metrics-exporter-prometheus = "=0.18.3"
schemars = "=1.2.2"
serde = { version = "=1.0.229", features = ["derive"] }
serde_json = "=1.0.151"
serde_yaml = "=0.9.34"
thiserror = "=2.0.21"
tokio = { version = "=1.53.2", features = ["full"] }
