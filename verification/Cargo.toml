[package]
name = "musickbeets"
version = "0.1.0"
edition = "2021"
publish = false

[dependencies]
anyhow = "=1.0.104"
csv = "1"
hound = "=3.5.1"
miniaudio = "=0.10.0"
realfft = "=3.5.1"
rayon = "=1.12.0"
