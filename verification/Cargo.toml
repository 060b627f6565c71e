[package]
name = "coffin"
version = "0.1.0"
edition = "2021"

[dependencies]
backtrace = "0.3"
libc = "0.2"
