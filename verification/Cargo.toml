[package]
name = "vrp_verifier"
version = "0.1.0"
edition = "2021"
publish = false

[dependencies]
bigdecimal = "=0.4.11"

[dev-dependencies]
chrono = "=0.4.45"
