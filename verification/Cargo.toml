[package]
name = "bn6f_harness"
version = "0.1.0"
edition = "2021"
publish = false

[dependencies]
sha1 = "0.10"
sha2 = "0.10"
png = "0.17"
rayon = "1"
