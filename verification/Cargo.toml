[package]
name = "friz"
version = "0.1.0"
edition = "2021"
publish = false

[dependencies]
crossterm = "0.28"
libc = "0.2"
rayon = "1"
tikv-jemallocator = "0.6"
