[package]
name = "illuminanced"
version = "0.1.0"
edition = "2021"
publish = false

[dependencies]
daemonize = "*"
getopts = "*"
glob = "*"
libc = "*"
log = "*"
simplelog = "*"
toml = "*"
