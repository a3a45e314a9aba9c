[package]
name = "combat_parser"
version = "0.1.0"
edition = "2021"
publish = false

[dependencies]
regex = "1"
chrono = "0.4"
json = "0.12"
log = "0.4"
libc = "0.2"
