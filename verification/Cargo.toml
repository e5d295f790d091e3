[package]
name = "grapple_devices"
version = "0.1.0"
edition = "2021"
publish = false

[dependencies]
anyhow = "1"
grapple-frc-msgs = "*"
log = "0.4"
schemars = "0.8"
serde = { version = "1", features = ["derive"] }
serde_json = "1"
tokio = { version = "1", features = ["sync", "rt", "macros", "time"] }
uuid = { version = "1", features = ["v4"] }
