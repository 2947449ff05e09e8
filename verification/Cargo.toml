[package]
name = "baby_git"
version = "0.1.0"
edition = "2021"
publish = false

[dependencies]
sha1 = "0.10"
snap = "1"
chrono = "0.4"
whoami = "1"
rand = "0.8"
