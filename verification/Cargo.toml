[package]
name = "woxel"
version = "0.1.0"
edition = "2021"
publish = false

[dependencies]
byteorder = "1"
flate2 = "1"
half = "2"
blosc-src = "0.3"
