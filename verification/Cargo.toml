[package]
name = "wordbox"
version = "0.1.0"
edition = "2021"
publish = false

[dependencies]
crossterm = "0.27"
itertools = "0.13"
rand = { version = "0.8", default-features = false, features = ["std_rng"] }
