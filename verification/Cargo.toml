[package]
name = "raw_executor"
version = "0.1.0"
edition = "2021"
publish = false

[dependencies]
embassy-time = "*"
atomic-polyfill = "*"
futures-util = "*"
