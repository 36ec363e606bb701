[package]
name = "calvera_books"
version = "0.1.0"
edition = "2021"
publish = false

[dependencies]
libc = "0.2"
rand = "0.9"
rand_chacha = "0.9"
