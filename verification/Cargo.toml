[package]
name = "modular-agent-core"
version = "0.1.0"
edition = "2021"
publish = false

[dependencies]
async-trait = "0.1"
axum = "0.8"
chrono = "0.4"
fnv = "1"
futures-util = "0.3"
im = "15"
indexmap = "2"
inventory = "0.3"
jsonschema = { version = "*", default-features = false }
log = "0.4"
photon-rs = "0.3"
regex = "1"
rmcp = { version = "*", features = ["server", "client", "macros", "transport-child-process", "transport-streamable-http-server"] }
schemars = "1"
serde = { version = "1", features = ["derive"] }
serde_json = "1"
thiserror = "2"
tokio = { version = "1", features = ["full"] }
tokio-util = "0.7"
uuid = { version = "1", features = ["v4"] }
