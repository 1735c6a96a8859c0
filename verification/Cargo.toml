[package]
name = "tg-rcore-tutorial"
version = "0.1.0"
edition = "2021"
publish = false

[dependencies]
xmas-elf = "*"
virtio-drivers = "*"
spin = "*"
tg-rcore-tutorial-easy-fs = "*"
