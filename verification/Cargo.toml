[package]
name = "sirtea"
version = "0.1.0"
edition = "2021"
publish = false

[dependencies]
anyhow = "1"
directories = "6"
indicatif = "0.18"
lexopt = "0.3"
reqwest = { version = "0.12", default-features = false, features = ["rustls-tls"] }
serde = { version = "1", features = ["derive"] }
symphonia = { version = "0.5", features = ["isomp4"] }
tokio = { version = "1", features = ["fs", "io-util", "macros", "process", "rt-multi-thread"] }
toml = "*"
transcribe-cpp = "0.1"
walkdir = "2"
