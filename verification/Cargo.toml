[package]
name = "tenzor_pipe"
version = "0.3.0"
edition = "2021"
publish = false

[dependencies]
anyhow = "=1.0.104"
arrow = { version = "=60.1.0", default-features = false, features = ["ipc"] }
clap = { version = "=4.6.7", features = ["derive"] }
crossbeam-channel = "=0.5.17"
hound = "=3.5.1"
memmap2 = "=0.9.12"
mp4io = "=0.1.2"
openh264 = "=0.9.9"
rust_h264 = { version = "=0.6.0", features = ["dev-internals"] }
rustfft = "=6.4.1"
rusty_aac = "=2.0.1"
rusty_h265 = "=0.6.2"
