[package]
name = "stor_age"
version = "0.1.0"
edition = "2021"
publish = false

[dependencies]
anyhow = "*"
bstr = "*"
bytesize = "*"
clap = "*"
env_logger = "*"
log = "*"
prettytable-rs = "*"
smooth = "*"
tempfile = "*"
