[package]
name = "async-cancellation-token"
version = "0.1.0"
edition = "2021"
publish = false

[dependencies]
slab = "0.4"

[dev-dependencies]
futures = "0.3"
futures-timer = "3"
