[package]
name = "zhtta"
version = "0.1.0"
edition = "2021"
publish = false

[dependencies]
miniz_oxide = "0.8"
lru = "0.12"
getopts = "0.2"
