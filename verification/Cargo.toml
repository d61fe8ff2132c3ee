[package]
name = "aera"
version = "0.1.0"
edition = "2021"
publish = false

[dependencies]
anyhow = "=1.0.104"
itertools = "=0.15.0"
log = "=0.4.35"
simple-log = "=2.4.0"
