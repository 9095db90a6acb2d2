[package]
name = "diskscope"
version = "0.1.0"
edition = "2021"
publish = false

[dependencies]
rayon = "1"
libc = "0.2"
async-channel = "2"
gtk4 = { version = "0.9", features = ["v4_12"] }
libadwaita = { version = "0.7", features = ["v1_6"] }
