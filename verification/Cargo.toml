[package]
name = "turbo_tasks"
version = "0.1.0"
edition = "2021"
publish = false

[dependencies]
event-listener = "2"
anyhow = "1"
