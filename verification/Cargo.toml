[package]
name = "vexra"
version = "0.1.0"
edition = "2021"
publish = false

[dependencies]
crc32fast = "=1.5.4"
fastrand = "=2.5.0"
serde = { version = "=1.0.229", features = ["derive"] }
serde_json = "=1.0.154"
parking_lot = "=0.12.5"
bytemuck = "=1.25.2"
clap = { version = "4", features = ["derive"] }
tokio = { version = "1", features = ["rt-multi-thread", "macros", "net"] }
axum = "0.7"
tantivy = "0.22"
