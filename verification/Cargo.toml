[package]
name = "ais_tracing"
version = "0.1.22"
edition = "2021"
publish = false

[dependencies]
arboard = { version = "=3.7.0", default-features = false }
azure_core = { version = "=1.1.0", default-features = false }
azure_data_cosmos = { version = "=1.0.0", features = ["control_plane"] }
azure_identity = { version = "=1.0.0", default-features = false }
chrono = "=0.4.45"
dark-light = "2"
dioxus = { version = "=0.7.10", default-features = false, features = ["document", "hooks", "html", "launch", "macro", "signals"] }
dirs = "=7.0.0"
futures = "0.3"
reqwest = { version = "=0.12.28", default-features = false }
serde = { version = "1", features = ["derive"] }
serde_json = "1"
tokio = { version = "1", features = ["rt", "sync", "time"] }
