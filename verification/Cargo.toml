[package]
name = "mdbook-ocirun"
version = "0.1.0"
edition = "2021"
publish = false

[dependencies]
anyhow = "1"
home = "0.5"
lazy_static = "1"
mdbook = { version = "0.4", default-features = false }
serde = { version = "1", features = ["derive"] }
sha256 = { version = "1", default-features = false }
toml = "0.5"

[dev-dependencies]
regex = "1"
