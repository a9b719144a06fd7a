[package]
name = "avl_tree"
version = "0.1.0"
edition = "2021"
publish = false

[dependencies]
replace_with = "0.1"
