[package]
name = "ndarray_npz"
version = "0.1.0"
edition = "2021"
publish = false

[dependencies]
crc32fast = "1"
ndarray = "0.16"
ndarray-npy = { version = "0.9", default-features = false }
zip = { version = "2", default-features = false, features = ["deflate"] }
