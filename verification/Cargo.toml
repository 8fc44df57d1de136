[package]
name = "syncre_lib"
version = "0.1.0"
edition = "2021"
publish = false

[dependencies]
md4 = "*"
simd-adler32 = "*"
bytes = "*"
copy_dir = "*"
