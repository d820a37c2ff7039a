[package]
name = "lukes_os"
version = "0.1.0"
edition = "2021"
publish = false

[dependencies]
pc-keyboard = "=0.8.0"
spin = "=0.12.3"
x86_64 = { version = "=0.15.5", default-features = false, features = ["instructions"] }
virtio-drivers = "=0.13.0"
bootloader_api = "=0.11.17"
