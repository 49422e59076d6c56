[package]
name = "pack_encode"
version = "0.1.0"
edition = "2021"
publish = false

[dependencies]
ahash = "=0.8.12"
chrono = "=0.4.45"
flate2 = "=1.1.10"
natord = "=1.0.9"
rayon = "=1.12.0"
sha1 = "=0.11.0"
sha2 = "=0.11.1"
tokio = { version = "=1.54.1", features = ["fs", "io-util", "macros", "rt-multi-thread", "sync"] }
tracing = "=0.1.44"
