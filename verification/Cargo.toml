[package]
name = "rusty_taskflow"
version = "0.1.0"
edition = "2021"
publish = false

[dependencies]
figment = "0.10"
serde = { version = "1", features = ["derive"] }
toml = "0.8"
tokio = { version = "1", features = ["rt-multi-thread", "macros", "time", "sync"] }
inventory = "0.3"
async-trait = "0.1"
thiserror = "2"
syn = { version = "2", features = ["full"] }
quote = "1"
proc-macro2 = "1"
