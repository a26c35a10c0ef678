[package]
name = "ffmpeg-aimd"
version = "0.1.0"
edition = "2021"
publish = false

[dependencies]
ffmpeg-next = "9"
memmap2 = "0.9"
