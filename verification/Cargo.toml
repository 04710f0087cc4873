[package]
name = "libpart"
version = "0.1.0"
edition = "2021"

[dependencies]
checksum = "*"
uuid = "*"
