[package]
name = "vmdk"
version = "0.4.0"
edition = "2021"
publish = false

[dependencies]
am-fs-core = "0.2"
flate2 = "1"
