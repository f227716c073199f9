[package]
name = "east"
version = "0.1.0"
edition = "2021"
publish = false

[dependencies]
url = { version = "2", features = ["serde"] }
serde = { version = "1", features = ["derive"] }
serde_yaml = "0.9"
serde_json = "1"
toml = "0.8"
semver = { version = "1", features = ["serde"] }
git2 = "*"
reqwest = { version = "*", features = ["blocking", "json"] }
flate2 = "1"
tar = "0.4"
fs_extra = "1"
tempdir = "0.3"
thiserror = "*"
anyhow = "1"
clap = { version = "4", features = ["derive"] }
