[package]
name = "rpkg"
version = "0.1.0"
edition = "2021"
publish = false

[dependencies]
urlencoding = "2"
sha2 = "0.10"
hex = "0.4"
regex = "1"
dashmap = "5"
threadpool = "1"
crossbeam = "0.8"
once_cell = "1"
curl = "0.4"
rustacuda = "0.1"
