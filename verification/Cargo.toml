[package]
name = "serial_graph"
version = "0.1.0"
edition = "2021"
publish = false

[dependencies]
serialport = { version = "=4.10.1", default-features = false }
iced = { version = "=0.13.1", default-features = false, features = ["canvas", "tiny-skia", "tokio"] }
