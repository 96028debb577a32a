[package]
name = "vcal_core"
version = "0.1.0"
edition = "2021"
publish = false

[dependencies]
log = "0.4"
ordered-float = "4"
rand = "0.8"
serde = { version = "1", features = ["derive"] }
serde_json = "1"
smallvec = "1"
