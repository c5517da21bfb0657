[package]
name = "movable_tree"
version = "0.1.0"
edition = "2021"
publish = false

[dependencies]
im = "*"
fxhash = "*"
arbitrary = { version = "*", features = ["derive"] }
arref = "*"
