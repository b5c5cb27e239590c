[package]
name = "pfp"
version = "0.1.0"
edition = "2021"
publish = false

[dependencies]
anyhow = "1"
clap = "4"
exitcode = "1"
log = "0.4"
regex = "1"
serde = { version = "1", features = ["derive"] }
serde_jsonc = "1"
thiserror = "1"
