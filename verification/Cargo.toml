[package]
name = "spectra"
version = "0.1.0"
edition = "2021"
publish = false

[dependencies]
jwalk = "*"
serde = { version = "*", features = ["derive"] }
serde_json = "*"
anyhow = "*"
clap = { version = "*", features = ["derive"] }
chrono = "*"
humansize = "*"
reqwest = { version = "*", default-features = false, features = ["blocking", "json"] }
tokio = { version = "*", features = ["macros", "rt-multi-thread", "net"] }
axum = "*"
tower-http = { version = "*", features = ["cors"] }
tracing = "*"
tracing-subscriber = "*"

[dev-dependencies]
tempfile = "*"
