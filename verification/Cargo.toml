[package]
name = "runsteps"
version = "0.4.0"
edition = "2021"
publish = false

[dependencies]
anyhow = "1"
clap = { version = "4", features = ["derive"] }
clap_complete = "4"
console = "0.15"
dirs = "5"
inquire = "0.7"
petgraph = "0.6"
serde = { version = "1", features = ["derive"] }
serde_json = "1"
sha2 = "0.10"
shell-escape = "0.1"
strsim = "0.11"
toml = "0.8"
