[package]
name = "led_runtime"
version = "0.1.0"
edition = "2021"
publish = false

[dependencies]
dirs = "5"
imbl = "3"
regex = "=1.13.1"
regex-syntax = "=0.8.11"
ropey = "=1.6.1"
serde_json = "=1.0.154"
toml = "0.8"
unicode-segmentation = "=1.13.3"
