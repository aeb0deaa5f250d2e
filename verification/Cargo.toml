[package]
name = "scale_events"
version = "0.1.0"
edition = "2021"
publish = false

[dependencies]
parity-scale-codec = { version = "=3.7.5", features = ["derive"] }
scale-info = { version = "=2.11.6", features = ["derive"] }
frame-metadata = "=15.2.0"
tokio = { version = "=1.54.1", features = ["rt-multi-thread", "macros", "sync"] }
serenity = { version = "=0.10.10", features = ["unstable_discord_api"] }
dotenv = "=0.15.0"
env_logger = "=0.9.3"
thiserror = "=1.0.69"
syn = { version = "=1.0.109", features = ["full", "extra-traits"] }
darling = "=0.13.4"
proc-macro-error = "=1.0.4"
jsonrpsee = { version = "=0.26.1", features = ["ws-client"] }
serde_json = "=1.0.154"
hex = "=0.4.3"
log = "=0.4.34"
