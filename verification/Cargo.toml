[package]
name = "bfjit"
version = "0.1.0"
edition = "2021"
publish = false

[dependencies]
dynasmrt = "*"
clap = { version = "4", features = ["derive"] }
libc = "*"
