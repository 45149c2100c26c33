[package]
name = "tycho_token_cache"
version = "0.1.0"
edition = "2021"
publish = false

[dependencies]
chrono = "=0.4.45"
diesel = { version = "2.3", default-features = false, features = ["postgres_backend", "chrono", "with-deprecated", "32-column-tables"] }
diesel-async = { version = "0.7", features = ["postgres", "deadpool"] }
figment = { version = "=0.10.19", features = ["yaml"] }
miette = "=7.6.0"
roaring = "=0.10.12"
serde_yaml = "0.9"
tokio = { version = "1", features = ["rt", "time", "macros"] }
tracing = "0.1"
