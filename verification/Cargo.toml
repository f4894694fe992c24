[package]
name = "softnet_stat"
version = "0.1.0"
edition = "2021"
publish = false

[dependencies]
getopts = "0.2"

[dev-dependencies]
serde_json = "1"
