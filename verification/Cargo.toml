[package]
name = "beecrab"
version = "0.1.0"
edition = "2021"
publish = false

[dependencies]
hashbrown = "*"
libc = "0.2"
