[package]
name = "transmitwave_core"
version = "0.1.0"
edition = "2021"
publish = false

[dependencies]
reed-solomon-simd = "*"
raptorq = "*"
base64 = "*"
hound = "*"
rustfft = "*"
realfft = "*"
thiserror = "*"
serde = { version = "*", features = ["derive"] }
clap = { version = "*", features = ["derive"] }
axum = "*"
tokio = { version = "*", features = ["rt-multi-thread", "macros", "net"] }
tower-http = { version = "*", features = ["cors"] }
