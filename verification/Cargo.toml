[package]
name = "block_executor"
version = "0.1.0"
edition = "2021"
publish = false

[dependencies]
anyhow = "=1.0.104"
async-trait = "=0.1.92"
bcs = "=0.2.1"
bigdecimal = { version = "=0.4.11", features = ["serde"] }
chrono = "=0.4.45"
csv = "=1.4.0"
field_count = "=0.1.1"
itertools = "=0.15.0"
rand = "=0.7.3"
serde = { version = "=1.0.229", features = ["derive"] }
serde_json = "=1.0.151"
serde_yaml = "=0.9.34"
thiserror = "=2.0.21"
tokio = { version = "=1.53.2", features = ["rt"] }
