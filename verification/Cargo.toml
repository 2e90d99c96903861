[package]
name = "html5_tree_adapter"
version = "0.1.0"
edition = "2021"
publish = false

[dependencies]
html5ever = "0.26"
libc = "0.2"
