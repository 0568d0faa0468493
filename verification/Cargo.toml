[package]
name = "agent_ng"
version = "0.1.0"
edition = "2021"
publish = false

[dependencies]
lru = "0.7"
crossbeam-channel = "0.5"
tokio = { version = "1", features = ["full"] }
tonic = "0.8"
prost = "0.11"
futures = "0.3"
async-trait = "0.1"
clap = "3"
figment = { version = "0.10", features = ["yaml"] }
serde = { version = "1", features = ["derive"] }
