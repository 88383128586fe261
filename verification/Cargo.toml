[package]
name = "chain_track"
version = "0.1.0"
edition = "2021"
publish = false

[dependencies]
anyhow = "=1.0.104"
futures = "=0.3.34"
log = "=0.4.34"
serde = "=1.0.229"
serde_derive = "=1.0.229"
tokio = { version = "=1.53.2", features = ["full"] }
toml = "=1.1.7"
tonic = { version = "=0.14.6", features = ["tls-ring", "tls-native-roots"] }
yellowstone-grpc-proto = "=14.0.1"
