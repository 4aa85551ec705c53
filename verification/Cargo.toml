[package]
name = "mipt_rust"
version = "0.1.0"
edition = "2021"
publish = false

[dependencies]
byteorder = "1"
crc = "3"
anyhow = "1"
thiserror = "1"
crossbeam = "0.8"
log = "0.4"
