[package]
name = "tree_walker"
version = "0.1.0"
edition = "2021"
publish = false

[dependencies]
path-absolutize = "3.1"
