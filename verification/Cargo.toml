[package]
name = "locustdb"
version = "0.1.0"
edition = "2021"
publish = false

[dependencies]
fnv = "1.0"
sha2 = "0.10"
ordered-float = "4"
log = "0.4"
threadpool = "1.8"
itertools = "0.13"
