[package]
name = "rinha_de_backend_2026_fabio_rust"
version = "0.1.0"
edition = "2021"
publish = false

[dependencies]
axum = "0.6"
bytemuck = { version = "1", features = ["derive"] }
chrono = "0.4"
clap = { version = "4", features = ["derive"] }
flate2 = "1"
serde = { version = "1", features = ["derive"] }
serde_json = "1"
thiserror = "1"
tokio = { version = "1", features = ["macros", "rt-multi-thread"] }
tracing = "0.1"
tracing-subscriber = { version = "0.3", features = ["env-filter"] }
