[package]
name = "cf_dialect"
version = "0.1.0"
edition = "2021"
publish = false

[dependencies]
pliron = "=0.20.0"
pliron-llvm = { version = "=0.20.0", default-features = false }
thiserror = "2"
