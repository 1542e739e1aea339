[package]
name = "mdbook_fetch"
version = "0.1.0"
edition = "2021"
publish = false

[dependencies]
pulldown-cmark = "*"
pulldown-cmark-to-cmark = "*"
mdbook-preprocessor = "*"
reqwest = { version = "*", default-features = false, features = ["blocking"] }
semver = "*"
serde_json = "*"
