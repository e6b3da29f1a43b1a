[package]
name = "mcmpmgr"
version = "0.1.0"
edition = "2021"
publish = false

[dependencies]
anyhow = "*"
clap = { version = "*", features = ["derive"] }
git2 = { version = "*", default-features = false }
home = "*"
pathdiff = "*"
reqwest = { version = "*", default-features = false }
serde = { version = "*", features = ["derive"] }
serde_json = "*"
serde_yaml = "*"
sha1 = "*"
sha2 = "*"
tempfile = "*"
tokio = { version = "*", features = ["rt-multi-thread", "macros", "fs"] }
toml = "*"
