[package]
name = "randomprime_patcher"
version = "0.1.0"
edition = "2021"
publish = false

[dependencies]
clap = "2"
memmap = "0.5"
num = { version = "0.1", default-features = false, features = ["bigint"] }
rand = "0.4"
