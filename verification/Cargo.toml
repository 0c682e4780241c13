[package]
name = "japanese-ruby-filter"
version = "0.1.0"
edition = "2021"
publish = false

[dependencies]
pulldown-cmark = { version = "0.8", default-features = false }
thiserror = "1"
