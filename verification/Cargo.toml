[package]
name = "tre"
version = "0.1.0"
edition = "2021"
publish = false

[dependencies]
anstream = "*"
anstyle = "*"
anyhow = "1"
clap = { version = "4", features = ["derive"] }
clap_complete = "4"
clap_mangen = "*"
globset = "0.4"
ignore = "0.4"
lscolors = "*"
serde = { version = "1", features = ["derive"] }
serde_json = "1"
