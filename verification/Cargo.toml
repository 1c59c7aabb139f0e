[package]
name = "abada"
version = "0.1.0"
edition = "2021"
publish = false

[dependencies]
http = "=1.5.0"
prost = "=0.13.5"
prost-reflect = "0.14"
