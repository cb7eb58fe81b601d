[package]
name = "rmf_prototype"
version = "0.1.0"
edition = "2021"
publish = false

[dependencies]
rclrs = "0.7"
