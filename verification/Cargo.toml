[package]
name = "rustfst_minimize"
version = "0.1.0"
edition = "2021"
publish = false

[dependencies]
anyhow = "=1.0.104"
binary-heap-plus = "=0.5.0"
stable_bst = "=0.2.0"
