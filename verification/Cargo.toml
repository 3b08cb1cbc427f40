[package]
name = "punter"
version = "0.1.0"
edition = "2021"
publish = false

[dependencies]
rand = "0.3"
serde = "1"
serde_derive = "1"
serde_json = "1"
getopts = "0.2"
bufstream = "0.1"
