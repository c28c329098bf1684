[package]
name = "key_stats"
version = "0.1.0"
edition = "2021"
publish = false

[dependencies]
bstr = "1"
fast-float = "0.2"
memchr = "2"
memmap2 = "0.9"
rayon = "1"
rustc-hash = "2"
