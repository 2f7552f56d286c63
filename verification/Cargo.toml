[package]
name = "fces"
version = "0.1.0"
edition = "2021"
publish = false

[dependencies]
graphrs = "=0.12.0"
ndarray = "=0.17.2"
thiserror = "=2.0.21"
usearch = { version = "=2.26.6", default-features = false }
