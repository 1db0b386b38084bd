[package]
name = "debkit"
version = "0.1.0"
edition = "2021"
publish = false

[dependencies]
sha2 = "*"
hex = "*"
flate2 = "*"
xz2 = "*"
zstd = "*"
tar = "*"
libc = "*"
tempfile = "*"
memmap2 = "*"
serde = { version = "*", features = ["derive"] }
serde_json = "*"
anyhow = "*"
thiserror = "*"
tokio = { version = "*", features = ["rt-multi-thread", "macros", "fs", "io-util"] }
reqwest = { version = "*", default-features = false, features = ["stream"] }
futures-util = "*"
clap = { version = "*", features = ["derive"] }
clap_complete = "*"
indicatif = "*"
tracing = "*"
tracing-subscriber = { version = "*", features = ["env-filter"] }
rayon = "*"
chrono = "*"
pgp = "*"
