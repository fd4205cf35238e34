[package]
name = "fastboot_sparse"
version = "0.1.0"
edition = "2021"
publish = false

[dependencies]
bytes = "1"
log = "0.4"
nusb = "0.2"
thiserror = "2"
tracing = "0.1"
