[package]
name = "lava_dependency"
version = "0.1.0"
edition = "2021"
publish = false

[dependencies]
indexmap = "2"
lava-anomaly = "*"
lava-drift = "*"
lava-outcome-chain = "*"
serde = { version = "1", features = ["derive"] }
serde_json = "1"
thiserror = "*"
