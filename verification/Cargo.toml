[package]
name = "bcl_demux"
version = "0.1.0"
edition = "2021"
publish = false

[dependencies]
csv = "1"
serde = { version = "1", features = ["derive"] }
serde-xml-rs = "0.6"
tokio = { version = "1", features = ["full"] }
async-compression = { version = "0.4", features = ["tokio", "gzip"] }
