[package]
name = "peak_reconcile"
version = "0.1.0"
edition = "2021"
publish = false

[dependencies]
csv = "=1.4.0"
num = "=0.4.3"
osmio = "=0.16.1"
serde = { version = "=1.0.229", features = ["derive"] }
utm = "=0.1.6"
xml-rs = "=1.0.0"
