[package]
name = "phrase_index"
version = "0.1.0"
edition = "2021"

[dependencies]
git2 = { version = "*", default-features = false }
