[package]
name = "sevenz_writer"
version = "0.1.0"
edition = "2021"
publish = false

[dependencies]
crc32fast = "1"
lzma-rust2 = "*"
aes = "0.8"
cbc = { version = "0.1", features = ["alloc"] }
sha2 = "0.10"
getrandom = "0.3"
