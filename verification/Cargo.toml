[package]
name = "quiz_state"
version = "0.1.0"
edition = "2021"
publish = false

[dependencies]
arrayvec = "0.7"
base64 = "0.22"
bincode = "2"
chrono = "0.4"
chrono-tz = "*"
enum-map = { version = "2", features = ["serde"] }
rocket = "0.5"
rocket_dyn_templates = { version = "0.2", features = ["tera"] }
serde = { version = "1", features = ["derive"] }
serde_json = "1"
thiserror = "*"
tokio = { version = "1", features = ["fs", "process"] }
vec1 = { version = "1", features = ["serde"] }
