[package]
name = "mdbook-godbolt"
version = "0.1.0"
edition = "2021"
publish = false

[dependencies]
anyhow = "1"
clap = "4"
mdbook = { version = "0.4", default-features = false }
pulldown-cmark = { version = "0.10", default-features = false }
semver = "1"
serde_json = "1"
toml_edit = "0.22"
