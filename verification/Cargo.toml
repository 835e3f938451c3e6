[package]
name = "git-full-send"
version = "0.1.0"
edition = "2021"
publish = false

[dependencies]
anyhow = "=1.0.104"
bstr = "=1.13.1"
clap = { version = "=4.6.7", features = ["derive", "env"] }
getrandom = "=0.3.4"
gix = { version = "=0.90.0", default-features = false, features = ["basic", "extras", "sha1"] }
gix-validate = "=0.13.1"
rustix = { version = "=1.1.6", features = ["fs", "pipe", "process", "net"] }
serde = { version = "=1.0.229", features = ["derive"] }
serde_json = "=1.0.154"
tempfile = "=3.27.0"
thiserror = "=2.0.21"
tokio = { version = "=1.54.1", features = ["full"] }
tracing = "=0.1.44"
tracing-subscriber = { version = "=0.3.23", features = ["env-filter"] }
