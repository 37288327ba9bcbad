[package]
name = "mozzarella"
version = "0.1.0"
edition = "2021"
publish = false

[dependencies]
rand = "0.7"
serde = { version = "1", features = ["derive"] }
serde_json = "1"
clap = { version = "3.1", features = ["derive"] }
rayon = "1"
lazy_static = "1"
git-version = "0.3"
primitive-types = "0.12"

[dev-dependencies]
