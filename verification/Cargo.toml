[package]
name = "fatty"
version = "0.1.0"
edition = "2021"
publish = false

[dependencies]
unicode-segmentation = "=1.13.3"
minicbor = { version = "=2.3.1", features = ["std"] }
glob = "=0.3.4"
vte = { version = "=0.15.0", features = ["ansi"] }
libc = "0.2"
