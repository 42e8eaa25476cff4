[package]
name = "unicode_util"
version = "0.1.0"
edition = "2021"
publish = false

[dependencies]
fst = "0.3"
fst-regex = "*"
serde = { version = "1", features = ["derive"] }
toml = "0.5"
dirs = "*"
clap = "2"
cursive = "*"
log = "*"
