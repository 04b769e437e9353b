[package]
name = "dispatch_bench"
version = "0.1.0"
edition = "2021"
publish = false

[dependencies]
crossbeam-channel = "0.5"
crossbeam-queue = "0.3"
libc = "0.2"
