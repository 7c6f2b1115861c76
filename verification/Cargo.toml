[package]
name = "posix_acl"
version = "1.2.0"
edition = "2021"
publish = false

[dependencies]
acl-sys = "*"
libc = "*"
uzers = "*"
