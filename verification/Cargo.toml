[package]
name = "keycode"
version = "0.1.0"
edition = "2021"
publish = false

[dependencies]
sha2 = "=0.10.9"
rand = "=0.8.8"
rand_chacha = "=0.3.1"
clap = { version = "=4.6.7", features = ["derive"] }
dirs = "=7.0.0"
