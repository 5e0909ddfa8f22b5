[package]
name = "broadphase"
version = "0.1.0"
edition = "2021"
publish = false

[dependencies]
cgmath = "=0.18.0"
rayon = "=1.12.0"
rustc-hash = "=2.1.3"
smallvec = "=1.16.4"
thread_local = "1"
