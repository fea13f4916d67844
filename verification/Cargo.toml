[package]
name = "sqpack"
version = "0.1.0"
edition = "2021"
publish = false

[dependencies]
bytes = "1"
miniz_oxide = "*"
async-std = "1"
futures = "0.3"
log = "0.4"
