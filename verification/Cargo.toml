[package]
name = "csm"
version = "0.1.0"
edition = "2021"
publish = false

[dependencies]
lightningcss = { version = "1.0.0-alpha.1", default-features = false }
proc-macro2 = "1"
quote = "1"
syn = "2"
