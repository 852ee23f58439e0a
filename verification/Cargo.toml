[package]
name = "git_wt"
version = "0.1.0"
edition = "2021"
publish = false

[dependencies]
clap = { version = "4", features = ["derive"] }
libc = "0.2"
percent-encoding = "2"
serde_json = "1"
tempfile = "3"
url = "2"
walkdir = "2"
