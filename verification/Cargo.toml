[package]
name = "binparse"
version = "0.1.0"
edition = "2021"
publish = false

[dependencies]
thiserror = "2"
proc-macro2 = "1"
quote = "1"
