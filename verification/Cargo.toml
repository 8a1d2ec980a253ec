[package]
name = "tsg"
version = "0.1.0"
edition = "2021"
publish = false

[dependencies]
anyhow = "1"
bstr = "1"
clap = { version = "4", features = ["derive"] }
petgraph = "*"
rayon = "1"
serde_json = "1"
tracing = "0.1"
tracing-subscriber = "0.3"
