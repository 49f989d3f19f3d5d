[package]
name = "typst_extra_docs"
version = "0.1.0"
edition = "2021"
publish = false

[dependencies]
anyhow = "=1.0.104"
mdbook-markdown = "=0.5.4"
pulldown-cmark-to-cmark = "=22.0.3"
url = "=2.5.8"
