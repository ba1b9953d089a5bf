[package]
name = "file_sys"
version = "0.1.0"
edition = "2021"
publish = false

[dependencies]
crc = "1"
chrono = "0.4"
