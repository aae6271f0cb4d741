[package]
name = "plausiden_stack"
version = "0.1.0"
edition = "2021"
publish = false

[dependencies]
rand = "0.8"
rand_chacha = "0.3"
rustfft = "6"
serde = { version = "1", features = ["derive"] }
thiserror = "1"
