[package]
name = "all_the_markdowns"
version = "0.1.0"
edition = "2021"
publish = false

[dependencies]
Inflector = "0.11"
walkdir = "2"
toml = "0.5"
mdbook = { version = "0.4", default-features = false }
