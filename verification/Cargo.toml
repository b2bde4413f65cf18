[package]
name = "rusty_whisper"
version = "0.1.0"
edition = "2021"
publish = false

[dependencies]
anyhow = "=1.0.104"
base64 = "=0.21.7"
hound = "=3.5.1"
# Not used by the code: tract's build pulls kstring in, and its newest
# release, 2.0.5, asks for rustc 1.96.
kstring = "=2.0.0"
ndarray-npy = "=0.9.1"
rayon = "=1.12.0"
rustc-hash = "=1.1.0"
rustfft = "=6.4.1"
tiktoken-rs = "=0.5.9"
tract-onnx = "=0.21.19"
