[package]
name = "infinigen"
version = "0.1.0"
edition = "2021"
publish = false

[dependencies]
bincode = "1.3.3"
flate2 = "1.0"
noise = "*"
pancurses = "*"
rand = "0.8.5"
serde = { version = "1.0", features = ["derive"] }
