[package]
name = "hls_reorder"
version = "0.1.0"
edition = "2021"
publish = false

[dependencies]
clap = { version = "=4.6.7", features = ["derive"] }
m3u8-rs = "=1.0.8"
prettydiff = "=0.9.0"
reqwest = { version = "=0.13.5", features = ["blocking"] }
