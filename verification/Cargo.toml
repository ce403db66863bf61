[package]
name = "repak"
version = "0.2.3"
edition = "2021"
publish = false

[dependencies]
aes = "0.8"
blake3 = "1"
byteorder = "1"
flate2 = "1"
libloading = "0.8"
lz4_flex = "0.11"
sha1 = "0.10"
zstd = { version = "0.13", features = ["experimental"] }
zstd-sys = { version = "2", features = ["experimental"] }
