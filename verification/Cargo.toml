[package]
name = "peggle"
version = "0.1.0"
edition = "2021"
publish = false

[dependencies]
num = "0.4"
proc-macro2 = "1"
quote = "1"
syn = { version = "2", features = ["full"] }
