[package]
name = "ic_websocket_cdk"
version = "0.1.0"
edition = "2021"
publish = false

[dependencies]
candid = "=0.10.39"
ic-cdk = "=0.13.6"
ic-cdk-timers = "=0.7.1"
ic-certified-map = "=0.4.1"
serde = { version = "=1.0.229", features = ["derive"] }
serde_bytes = "=0.11.19"
serde_cbor = "=0.11.2"
sha2 = "=0.10.9"

[dev-dependencies]
candid = { version = "=0.10.39", features = ["value"] }
ic-certification = { version = "=2.6.0", features = ["serde"] }
