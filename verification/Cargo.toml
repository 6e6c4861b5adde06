[package]
name = "rwr"
version = "0.1.0"
edition = "2021"
publish = false

[dependencies]
memchr = "2"
serde = { version = "1", features = ["derive"] }
serde_json = "1"
serde_yaml = "0.9"
clap = { version = "4", features = ["derive"] }
clap_complete = "4"
ignore = "0.4"
memmap2 = "0.9"
rayon = "1"
ruby-prism = "*"
