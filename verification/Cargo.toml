[package]
name = "ppb_cdcl2"
version = "0.1.0"
edition = "2021"
publish = false

[dependencies]
num = "0.4"
fxhash = "0.2"
either = "1"
ordered-float = "*"
statrs = "*"
thiserror = "*"
