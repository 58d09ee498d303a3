[package]
name = "rip"
version = "1.0.0"
edition = "2021"
publish = false

[dependencies]
clap = { version = "4", features = ["derive"] }
clap_complete = "4"
jiff = "0.2"
percent-encoding = "2"
rustix = { version = "1", features = ["fs", "process"] }
toml = "*"

[dev-dependencies]
tempfile = "3"
