[package]
name = "bindcore"
version = "0.1.0"
edition = "2021"
publish = false

[dependencies]
itertools = "*"
syn = "*"
proc-macro2 = "*"
cc = "*"
version_check = "*"
