[package]
name = "actionkv"
version = "0.1.0"
edition = "2021"
publish = false

[dependencies]
byteorder = "1"
crc = "1"
clap = "2"
serde = "1"
serde_derive = "1"
