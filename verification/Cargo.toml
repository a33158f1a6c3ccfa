[package]
name = "priority_queue"
version = "0.1.0"
edition = "2021"
publish = false

[dependencies]
critical-section = "1"
