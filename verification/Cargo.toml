[package]
name = "serde_value_flatten"
version = "0.2.0"
edition = "2021"
publish = false

[dependencies]
serde = "=1.0.229"
serde-value = "=0.7.0"
