[package]
name = "asn_db"
version = "0.1.0"
edition = "2021"
publish = false

[dependencies]
csv = "*"
ipnet = "*"
