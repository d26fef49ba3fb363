[package]
name = "fagra"
version = "0.1.0"
edition = "2021"
publish = false

[dependencies]
faer = "0.24"
num-dual = "*"
proptest = "1"
thiserror = "2"
