[package]
name = "cargo-features-manager"
version = "0.1.0"
edition = "2021"
publish = false

[dependencies]
cargo_metadata = "0.23"
cargo-platform = "*"
clap = { version = "4", features = ["derive"] }
clap_complete = "4"
color-eyre = "0.6"
console = "0.16"
ctrlc = "3"
dircpy = "*"
fuzzy-matcher = "*"
itertools = "*"
semver = "1"
tempfile = "3"
toml_edit = "*"
