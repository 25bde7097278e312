[package]
name = "travel_time"
version = "0.1.0"
edition = "2021"
publish = false

[dependencies]
ball-tree = "*"
geo = "*"
