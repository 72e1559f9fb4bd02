[package]
name = "supaterm"
version = "0.1.0"
edition = "2021"
publish = false

[dependencies]
anyhow = "1"
atty = "0.2"
base64 = "0.21"
chrono = { version = "0.4", features = ["serde"] }
clap = { version = "4", features = ["derive", "env"] }
crossterm = "0.27"
dirs = "5"
env_logger = "0.10"
glob = "0.3"
htmlescape = "0.3"
log = "0.4"
openai-api-rs = "4"
portable-pty = "0.8"
ratatui = "0.26"
serde = { version = "1", features = ["derive"] }
serde_json = "1"
similar = "2"
tempfile = "3"
termwiz = "0.22"
tokio = { version = "1", features = ["full"] }
toml = "0.8"
uuid = { version = "1", features = ["v4"] }
vte = "0.13"
which = "6"
