[package]
name = "timetrax"
version = "0.1.0"
edition = "2021"
publish = false

[dependencies]
clap = { version = "*", features = ["derive"] }
clap_complete = "*"
env_logger = "*"
log = "*"
serde = { version = "*", features = ["derive"] }
serde_json = "*"
sha2 = "*"
time = { version = "*", features = ["local-offset", "formatting", "parsing", "macros"] }
uuid = { version = "*", features = ["v4"] }
