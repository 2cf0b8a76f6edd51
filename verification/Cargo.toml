[package]
name = "os_sync"
version = "0.1.0"
edition = "2021"
publish = false

[dependencies]
lazy_static = "1.4"
