[package]
name = "xgrep"
version = "0.3.0"
edition = "2021"
publish = false

[dependencies]
regex = "=1.13.1"
memchr = "=2.8.3"
globset = "=0.4.21"
calamine = { version = "=0.26.1", features = ["dates"] }
zip = { version = "~2.2", default-features = false, features = ["deflate"] }
encoding_rs = "=0.8.44"
csv = "=1.4.0"
chrono = "=0.4.45"
clap = { version = "=4.6.7", features = ["derive"] }
serde = { version = "=1.0.229", features = ["derive"] }
serde_json = "=1.0.154"
termcolor = "=1.4.1"
ignore = "=0.4.34"
rayon = "=1.12.0"
anyhow = "=1.0.104"
thiserror = "=2.0.21"
