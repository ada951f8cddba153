[package]
name = "scuttlecast"
version = "0.1.0"
edition = "2021"
publish = false

[dependencies]
async-stream = "0.3"
bincode = { version = "2", features = ["derive"] }
bon = "3"
bytes = "1"
clap = { version = "4", features = ["derive"] }
derive_more = { version = "2", features = ["display"] }
futures-core = "0.3"
futures-util = "0.3"
libc = "0.2"
rand = "0.9"
reed-solomon-simd = "3"
socket2 = { version = "0.6", features = ["all"] }
thiserror = "2"
tokio = { version = "1", features = ["full"] }
tracing = "0.1"
tracing-subscriber = { version = "0.3", features = ["env-filter"] }
