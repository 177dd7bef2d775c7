[package]
name = "haversine_processor"
version = "0.1.0"
edition = "2021"

[dependencies]
cpu_timer = "*"
