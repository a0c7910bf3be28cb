[package]
name = "audit_core"
version = "0.1.0"
edition = "2021"
publish = false

[dependencies]
clap = { version = "4", features = ["derive"] }
comfy-table = "7"
csv = "1"
serde = { version = "1", features = ["derive"] }
serde_json = "1"
