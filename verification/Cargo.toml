[package]
name = "open_coroutine"
version = "0.1.0"
edition = "2021"
publish = false

[dependencies]
crossbeam-deque = "*"
libc = "*"
once_cell = "*"
