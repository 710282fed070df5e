[package]
name = "humio"
version = "0.1.0"
edition = "2021"
publish = false

[dependencies]
enigo = "*"
rand = "*"
log = "*"
thiserror = "*"
