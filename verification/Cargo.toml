[package]
name = "cvvc"
version = "0.1.0"
edition = "2021"
publish = false

[dependencies]
anyhow = "1"
chrono = "0.4"
clap = { version = "4", features = ["derive"] }
colored = "*"
flate2 = "1"
glob = "0.3"
hex = "0.4"
indexmap = "2"
is_executable = "*"
reqwest = { version = "0.12", default-features = false, features = ["blocking", "rustls-tls"] }
rust-ini = "*"
sha1 = "*"
url = "2"
whoami = "*"
