[package]
name = "feheim"
version = "1.0.0"
edition = "2021"
publish = false

[dependencies]
sha2 = "0.10"
clap = { version = "4", features = ["derive"] }
console = "0.15"
dirs = "5"
flate2 = "1"
indicatif = "0.17"
libc = "0.2"
serde = { version = "1", features = ["derive"] }
serde_json = "1"
tar = "0.4"
ureq = "2"
