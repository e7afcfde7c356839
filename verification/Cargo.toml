[package]
name = "ndsd_read"
version = "0.1.0"
edition = "2021"
publish = false

[dependencies]
byteorder = "=1.5.0"
chardetng = "=0.1.17"
encoding_rs = "=0.8.44"
id3 = "=1.17.2"
