[package]
name = "quick_proj"
version = "0.1.0"
edition = "2021"
publish = false

[dependencies]
anyhow = "*"
clap = { version = "*", features = ["derive"] }
colored = "*"
console = "*"
dialoguer = { version = "*", features = ["fuzzy-select"] }
directories = "*"
ignore = "*"
rayon = "*"
serde = { version = "*", features = ["derive"] }
shellexpand = "*"
toml = "*"

[dev-dependencies]
tempfile = "*"
