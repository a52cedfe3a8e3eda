[package]
name = "risingwave_core"
version = "0.1.0"
edition = "2021"
publish = false

[dependencies]
anyhow = "1"
async-trait = "0.1"
bytes = "1"
futures = "0.3"
libc = "0.2"
nix = "0.24"
tokio = { version = "1", features = ["fs", "macros", "rt", "sync"] }
