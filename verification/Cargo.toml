[package]
name = "barrage"
version = "0.2.1"
edition = "2021"
publish = false

[dependencies]
concurrent-queue = "1.2"
event-listener = "2.5"
spin = "0.9"
