[package]
name = "spoor"
version = "0.1.0"
edition = "2021"
publish = false

[dependencies]
regex = "1"
libc = "0.2"
zbus = "5"
gtk = "0.18"
