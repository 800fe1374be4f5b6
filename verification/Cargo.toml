[package]
name = "puff"
version = "0.1.0"
edition = "2021"
publish = false

[dependencies]
serde_json = "1"
md5 = "0.7"
shlex = "1"
reqwest = { version = "0.12", features = ["blocking"], default-features = false }
serde = { version = "1", features = ["derive"] }
toml = "0.8"
serde_yaml = "0.9"
clap = { version = "4", features = ["derive"] }
flate2 = "1"
tar = "0.4"
directories = "5"
whoami = "1"
anyhow = "1"
