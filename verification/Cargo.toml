[package]
name = "gleamgrid"
version = "0.1.0"
edition = "2021"
publish = false

[dependencies]
arc4 = "*"
heapless = "*"
