[package]
name = "chunkah"
version = "0.1.0"
edition = "2021"
publish = false

[dependencies]
anyhow = "1"
camino = "1"
cap-std-ext = "*"
indexmap = "2"
libc = "0.2"
rpm-qa = "*"
tracing = "0.1"
