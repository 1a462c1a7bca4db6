[package]
name = "ic-stable-memory"
version = "0.1.0"
edition = "2021"
publish = false

[dependencies]
zwohash = "=0.1.2"

[dev-dependencies]
rand = "0.8"
