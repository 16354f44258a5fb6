[package]
name = "zex"
version = "0.1.0"
edition = "2021"
publish = false

[dependencies]
anyhow = "=1.0.104"
argon2 = "=0.5.3"
base64 = "=0.22.1"
blake2 = "=0.10.6"
chacha20poly1305 = "=0.10.1"
clap = { version = "=4.6.7", features = ["derive"] }
directories = "=6.0.0"
globset = "=0.4.21"
ignore = "=0.4.34"
process-wrap = { version = "=9.1.1", features = ["tokio1"] }
regex = "=1.13.1"
reqwest = { version = "=0.12.28", default-features = false, features = ["json"] }
serde_json = "=1.0.154"
time = { version = "=0.3.55", features = ["formatting", "local-offset", "parsing"] }
tokio = { version = "=1.54.1", features = ["fs", "io-std", "io-util", "macros", "process", "rt-multi-thread", "signal", "sync", "time"] }
toml = "=0.9.12"
zeroize = { version = "=1.9.1", features = ["derive"] }
