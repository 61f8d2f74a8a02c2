[package]
name = "tflite_server"
version = "0.1.0"
edition = "2021"
publish = false

[dependencies]
axum = "=0.7.9"
ndarray = "=0.17.2"
serde = { version = "=1.0.229", features = ["derive"] }
serde_json = "=1.0.154"
sha2 = "=0.10.9"
tokio = { version = "=1.54.1", features = ["full"] }
tower-http = { version = "=0.5.2", features = ["fs"] }
tracing = "=0.1.44"
tracing-subscriber = "=0.3.23"
tract-tflite = "=0.23.9"
