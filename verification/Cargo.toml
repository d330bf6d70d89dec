[package]
name = "gardswag"
version = "0.1.0"
edition = "2021"

[dependencies]
crossbeam-channel = "0.5"
crossbeam-utils = "0.8"
