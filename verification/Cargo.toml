[package]
name = "anydoc"
version = "0.1.0"
edition = "2021"
publish = false

[dependencies]
encoding_rs = "0.8"
html5ever = "*"
scraper = "*"
mail-parser = { version = "0.11.8", features = ["full_encoding"] }
