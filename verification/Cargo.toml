[package]
name = "observe"
version = "0.1.0"
edition = "2021"
publish = false

[dependencies]
indexmap = "*"
opentelemetry = "*"
pin-project-lite = "*"
