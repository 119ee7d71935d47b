[package]
name = "task_orchestrator"
version = "0.1.0"
edition = "2021"
publish = false

[dependencies]
tokio = { version = "1", features = ["sync", "rt", "time"] }
uuid = { version = "1", features = ["v4"] }
thiserror = "2"
async-trait = "0.1"
