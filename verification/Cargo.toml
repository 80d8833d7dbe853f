[package]
name = "erisharness"
version = "0.1.0"
edition = "2021"
publish = false

[dependencies]
anyhow = "1"
base64 = "0.22"
futures-util = "0.3"
libc = "0.2"
nix = { version = "0.30", features = ["fs", "hostname", "mount", "poll", "process", "resource", "sched", "signal", "socket", "uio", "user"] }
reqwest = { version = "0.12", default-features = false, features = ["json", "stream", "rustls-tls"] }
rusqlite = { version = "*", features = ["bundled"] }
seccompiler = "*"
serde = { version = "1", features = ["derive"] }
serde_json = "1"
similar = "2"
tokio = { version = "1", features = ["full"] }
tokio-util = "0.7"
unicode-normalization = "0.1"
uuid = { version = "1", features = ["v7"] }
